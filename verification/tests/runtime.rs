//! The runtime's object model, builtins, stack maps and policies on given
//! values.
use crowc::builtins::{
    bounds_message, btext, btos_message, btos_text, buf_aux, elem_read, elem_write, first_cap, float_text,
    grown_cap, itos, panic_message, parse_int, stof_message, utos,
};
use crowc::gc::{
    first_nursery, forward, forwarded_meta, in_nursery, marked_meta, must_remember,
    next_threshold, nursery_size, plan, stack_limit_for, sweep, to_mark, Forward, Plan, Sizing,
};
use crowc::ir::Rt;
use crowc::object::{
    block_size, buf_desc, desc_array, desc_string, payload_size, ref_words, round16, round8,
    CrowDesc,
};
use crowc::stackmaps::{register_stackmaps, walks_on, MapEntry};

#[test]
fn buf_aux_units() {
    // Scalar buffers count bytes; reference buffers count elements.
    assert_eq!(buf_aux(1, 0, 10), 10);
    assert_eq!(buf_aux(4, 0, 10), 40);
    assert_eq!(buf_aux(8, 0, 10), 80);
    assert_eq!(buf_aux(8, 1, 10), 10);
    assert_eq!(buf_aux(1, 1, 10), 10);
}

#[test]
fn elem_read_write_size_dispatch() {
    // Each width writes exactly its own lane and nothing around it.
    for (size, idx, val) in
        [(1u64, 3usize, 0xABu64), (2, 3, 0xBEEF), (4, 3, 0xDEADBEEF), (8, 3, u64::MAX)]
    {
        let mut buf = vec![0u8; 32];
        elem_write(&mut buf, size, idx, val);
        assert_eq!(elem_read(&buf, size, idx), val, "size {size}");
        assert_eq!(elem_read(&buf, size, idx - 1), 0, "size {size} lane below");
        if (idx + 1) * size as usize + size as usize <= buf.len() {
            assert_eq!(elem_read(&buf, size, idx + 1), 0, "size {size} lane above");
        }
    }
    // Narrow writes truncate: only the low bytes land.
    let mut buf = vec![0u8; 32];
    elem_write(&mut buf, 1, 0, 0x1FF);
    assert_eq!(elem_read(&buf, 1, 0), 0xFF);
    assert_eq!(elem_read(&buf, 1, 1), 0);
    elem_write(&mut buf, 2, 0, 0xFFFF_1234);
    assert_eq!(elem_read(&buf, 2, 0), 0x1234);
}

#[test]
fn sizes_round_up() {
    assert_eq!(round8(0), 0);
    assert_eq!(round8(1), 8);
    assert_eq!(round8(8), 8);
    assert_eq!(round16(17), 32);
    assert_eq!(payload_size(CrowDesc { kind: 0, size: 24, refmap: 1 }, 99), Ok(24));
    assert_eq!(payload_size(desc_string(), 3), Ok(8));
    assert_eq!(payload_size(buf_desc(0), 9), Ok(16));
    assert_eq!(payload_size(buf_desc(1), 9), Ok(72));
    assert_eq!(
        payload_size(CrowDesc { kind: 7, size: 0, refmap: 0 }, 0),
        Err("corrupt object descriptor (kind 7)".to_string())
    );
    assert_eq!(block_size(desc_array(), 0), Ok(48));
    assert_eq!(block_size(desc_string(), 0), Ok(16));
    assert_eq!(block_size(desc_string(), 1), Ok(32));
}

#[test]
fn references_of_objects() {
    assert_eq!(ref_words(CrowDesc { kind: 0, size: 40, refmap: 0b10110 }, 0), vec![1, 2, 4]);
    assert_eq!(ref_words(buf_desc(1), 3), vec![0, 1, 2]);
    assert_eq!(ref_words(buf_desc(0), 3), Vec::<u64>::new());
    assert_eq!(ref_words(desc_string(), 3), Vec::<u64>::new());
    assert_eq!(ref_words(desc_array(), 0), vec![0]);
    assert_eq!(ref_words(CrowDesc { kind: 0, size: 0, refmap: 1 << 63 }, 0), vec![63]);
}

#[test]
fn integers_in_text() {
    assert_eq!(parse_int("0", 1), Ok(0));
    assert_eq!(parse_int("-7", 1), Ok(-7));
    assert_eq!(parse_int("007", 1), Ok(7));
    assert_eq!(parse_int("9223372036854775807", 1), Ok(i64::MAX));
    assert_eq!(parse_int("-9223372036854775808", 1), Ok(i64::MIN));
    assert_eq!(
        parse_int("9223372036854775808", 3),
        Err("stoi: integer \"9223372036854775808\" out of range at line 3".to_string())
    );
    assert_eq!(
        parse_int("-99999999999999999999", 3),
        Err("stoi: integer \"-99999999999999999999\" out of range at line 3".to_string())
    );
    for bad in ["", "-", "+1", " 1", "1 ", "12x", "--1", "é"] {
        assert_eq!(
            parse_int(bad, 9),
            Err(format!("stoi: invalid integer \"{bad}\" at line 9"))
        );
    }
    assert_eq!(itos(i64::MIN), "-9223372036854775808");
    assert_eq!(utos(u64::MAX), "18446744073709551615");
    assert_eq!(parse_int(&itos(-42), 1), Ok(-42));
}

#[test]
fn floats_in_text() {
    for good in ["1", "-1.5", "1e3", "1E-3", ".", "--"] {
        assert!(float_text(good), "{good}");
    }
    for bad in ["", "+1", "inf", "NaN", "1f", " 1"] {
        assert!(!float_text(bad), "{bad}");
    }
    assert_eq!(stof_message("abc", true, 2), "stof: invalid float \"abc\" at line 2");
    assert_eq!(stof_message("1e999", false, 2), "stof: float \"1e999\" out of range at line 2");
}

#[test]
fn messages_of_panics() {
    let cases = [
        (Rt::PanicDiv, "division by zero at line 4"),
        (Rt::PanicOverflow, "integer overflow at line 4"),
        (Rt::PanicShift, "invalid shift amount at line 4"),
        (Rt::PanicCast, "cast out of range at line 4"),
        (Rt::PanicUnwrap, "unwrap of None at line 4"),
        (Rt::PanicStack, "stack overflow at line 4"),
        (Rt::AssertFail, "assertion failed at line 4"),
    ];
    for (rt, text) in cases {
        assert_eq!(panic_message(rt, 4), Some(text.to_string()));
    }
    assert_eq!(panic_message(Rt::Alloc, 4), None);
    assert_eq!(bounds_message(-5, 2, 7), "index -5 out of bounds (len 2) at line 7");
    assert_eq!(btos_message(8), "btos: invalid UTF-8 at line 8");
    assert_eq!(btext(0), "false");
    assert_eq!(btext(1), "true");
}

#[test]
fn capacities() {
    assert_eq!(first_cap(0), 4);
    assert_eq!(first_cap(9), 9);
    assert_eq!(grown_cap(0), 4);
    assert_eq!(grown_cap(4), 8);
}

#[test]
fn nursery_follows_survival() {
    let small = Sizing { size: 512 * 1024, grow_streak: 0, shrink_streak: 0 };
    // A forced collection of a half-empty nursery says nothing.
    assert_eq!(small.adapt(100, 100), small);
    // Two full collections with high survival double it.
    let once = small.adapt(512 * 1024, 128 * 1024);
    assert_eq!(once, Sizing { size: 512 * 1024, grow_streak: 1, shrink_streak: 0 });
    let mut s = once.adapt(512 * 1024, 128 * 1024);
    assert_eq!(s, Sizing { size: 1024 * 1024, grow_streak: 0, shrink_streak: 0 });
    // Sixteen with hardly any survival halve it again.
    for i in 0..15 {
        s = s.adapt(1024 * 1024, 0);
        assert_eq!(s, Sizing { size: 1024 * 1024, grow_streak: 0, shrink_streak: i + 1 });
    }
    s = s.adapt(1024 * 1024, 0);
    assert_eq!(s, small);
    // In between both streaks end; floor and cap hold.
    assert_eq!(once.adapt(512 * 1024, 64 * 1024), small);
    assert_eq!(small.adapt(512 * 1024, 0), small);
    assert_eq!(nursery_size(1), 512 * 1024);
    assert_eq!(nursery_size(u64::MAX), 64 * 1024 * 1024);
    assert_eq!(first_nursery(None), (512 * 1024, true));
    assert_eq!(first_nursery(Some(0)), (16 * 1024, false));
    assert_eq!(first_nursery(Some(64)), (64 * 1024, false));
}

#[test]
fn allocation_plans() {
    assert_eq!(plan(16, 1024, 16, 0, 0), Plan::Bump { collect: false });
    assert_eq!(plan(32, 1024, 16, 0, 0), Plan::Bump { collect: true });
    assert_eq!(plan(257, 1024, 1024, 0, 1000), Plan::Old { collect: false });
    assert_eq!(plan(257, 1024, 1024, 800, 1000), Plan::Old { collect: true });
    assert_eq!(next_threshold(0), 8 * 1024 * 1024);
    assert_eq!(next_threshold(5 * 1024 * 1024), 10 * 1024 * 1024);
}

#[test]
fn moving_and_marking() {
    assert_eq!(forward(0, true, 0), Forward::Leave);
    assert_eq!(forward(64, false, 0), Forward::Leave);
    assert_eq!(forward(64, true, 4096), Forward::Copy);
    assert_eq!(forward(64, true, forwarded_meta(8192)), Forward::Moved(8192));
    assert!(in_nursery(10, 10, 20) && !in_nursery(20, 10, 20));
    assert!(!to_mark(0, 0));
    assert!(to_mark(64, 4096));
    assert!(!to_mark(64, 4096 | 4));
    assert!(!to_mark(64, marked_meta(4096)));
    assert_eq!(sweep(marked_meta(4096)), Some(4096));
    assert_eq!(sweep(4096), None);
    assert!(must_remember(100, 15, 10, 20));
    assert!(!must_remember(12, 15, 10, 20));
    assert!(!must_remember(100, 30, 10, 20));
    assert!(!must_remember(100, 0, 0, 20));
}

#[test]
fn stack_limits() {
    let base = 1 << 30;
    let slack = 256 * 1024;
    assert_eq!(stack_limit_for(base, Some(4096), None), 4096 + slack);
    assert_eq!(stack_limit_for(base, None, None), base - 8 * 1024 * 1024 + slack);
    assert_eq!(stack_limit_for(base, Some(4096), Some(128)), base - 128 * 1024);
    // At least 64 KiB are usable, and the floor holds.
    assert_eq!(stack_limit_for(base, Some(4096), Some(1)), base - 64 * 1024);
    assert_eq!(stack_limit_for(base, Some(base - 4096), Some(64)), base - 4096 + slack);
}

#[test]
fn stack_maps_are_indexed() {
    // Two safepoints, out of order, with three slots between them.
    let words = vec![2, 5000, 40, 96, 0, 2, 1000, 24, 48, 2, 1, 8, 16, 24];
    let maps = register_stackmaps(&words);
    assert_eq!(
        maps.entries,
        vec![
            MapEntry { pc: 1024, span: 48, start: 2, count: 1 },
            MapEntry { pc: 5040, span: 96, start: 0, count: 2 },
        ]
    );
    assert_eq!(maps.slots, vec![8, 16, 24]);
    assert_eq!(maps.find(1024), Some(0));
    assert_eq!(maps.find(5040), Some(1));
    assert_eq!(maps.find(5041), None);
    assert_eq!(maps.slots_of(1, 10_000), vec![9912, 9920]);
    assert_eq!(maps.slots_of(0, 10_000), vec![9976]);
    assert!(walks_on(16, 100) && !walks_on(0, 100) && !walks_on(100, 100) && !walks_on(9, 100));
}

#[test]
fn a_major_collection_is_due_above_the_threshold() {
    assert!(!crowc::gc::major_due(100, 100));
    assert!(crowc::gc::major_due(101, 100));
    assert_eq!(crowc::builtins::pop_message(7), "pop on empty array at line 7");
}

#[test]
fn text_from_bytes() {
    assert_eq!(btos_text(&vec![104, 195, 169], 1), Ok("h\u{e9}".to_string()));
    assert_eq!(btos_text(&vec![], 1), Ok(String::new()));
    for bad in [vec![0xffu8], vec![195], vec![0xed, 0xa0, 0x80], vec![0xc0, 0x80]] {
        assert_eq!(btos_text(&bad, 7), Err("btos: invalid UTF-8 at line 7".to_string()));
    }
}
