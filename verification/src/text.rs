//! Text as sequences of characters: equality, concatenation, numerals.
use vstd::prelude::*;
use vstd::string::StringExecFns;

verus! {

/// `String::push` appends one character to the end of the string.
pub assume_specification [String::push](s: &mut String, c: char)
    ensures
        final(s)@ == old(s)@.push(c),
;

/// Are two string slices the same text?
pub fn str_eq(a: &str, b: &str) -> (r: bool)
    ensures
        r == (a@ == b@),
{
    broadcast use vstd::utf8::encode_utf8_decode_utf8;
    let x = a.as_bytes();
    let y = b.as_bytes();
    if x.len() != y.len() {
        return false;
    }
    let mut i: usize = 0;
    while i < x.len()
        invariant
            i <= x.len(),
            x@.len() == y@.len(),
            forall|j: int| 0 <= j < i ==> x@[j] == y@[j],
            x@ == vstd::utf8::encode_utf8(a@),
            y@ == vstd::utf8::encode_utf8(b@),
        decreases x.len() - i,
    {
        if x[i] != y[i] {
            assert(x@[i as int] != y@[i as int]);
            return false;
        }
        i += 1;
    }
    assert(x@ =~= y@);
    assert(vstd::utf8::decode_utf8(x@) == a@);
    assert(vstd::utf8::decode_utf8(y@) == b@);
    true
}

/// The texts of a list of strings.
pub open spec fn names_view(v: Seq<String>) -> Seq<Seq<char>> {
    Seq::new(v.len(), |i: int| v[i]@)
}

/// A copy of a list of strings, text by text.
pub fn clone_names(v: &Vec<String>) -> (r: Vec<String>)
    ensures
        names_view(r@) == names_view(v@),
{
    let mut out: Vec<String> = Vec::new();
    let mut i: usize = 0;
    while i < v.len()
        invariant
            i <= v.len(),
            out.len() == i,
            forall|j: int| 0 <= j < i ==> out@[j]@ == v@[j]@,
        decreases v.len() - i,
    {
        out.push(v[i].clone());
        i += 1;
    }
    assert(names_view(out@) =~= names_view(v@));
    out
}

/// The first position at or after `from` where `name` stands in `names`.
pub open spec fn position_from(names: Seq<Seq<char>>, name: Seq<char>, from: nat) -> Option<nat>
    decreases names.len() - from,
{
    if from >= names.len() {
        None
    } else if names[from as int] == name {
        Some(from)
    } else {
        position_from(names, name, from + 1)
    }
}

/// The first position where `name` stands in `names`.
pub open spec fn position(names: Seq<Seq<char>>, name: Seq<char>) -> Option<nat> {
    position_from(names, name, 0)
}

/// A position found is the first occurrence; none found means no occurrence.
pub proof fn lemma_position_from(names: Seq<Seq<char>>, name: Seq<char>, from: nat)
    ensures
        position_from(names, name, from) matches Some(i) ==> {
            &&& from <= i < names.len()
            &&& names[i as int] == name
            &&& forall|j: int| from <= j < i ==> names[j] != name
        },
        position_from(names, name, from) is None ==> forall|j: int|
            from <= j < names.len() ==> names[j] != name,
    decreases names.len() - from,
{
    if from < names.len() && names[from as int] != name {
        lemma_position_from(names, name, from + 1);
    }
}

/// The position search over a list of strings.
pub fn find_name(names: &Vec<String>, name: &str) -> (r: Option<usize>)
    ensures
        r is Some == position(names_view(names@), name@) is Some,
        r matches Some(i) ==> i < names.len() && position(names_view(names@), name@) == Some(i as nat),
{
    let mut i: usize = 0;
    while i < names.len()
        invariant
            i <= names.len(),
            position(names_view(names@), name@) == position_from(names_view(names@), name@, i as nat),
        decreases names.len() - i,
    {
        assert(names_view(names@)[i as int] == names@[i as int]@);
        if str_eq(names[i].as_str(), name) {
            return Some(i);
        }
        i += 1;
    }
    None
}

// -- Concatenation ----------------------------------------------------------

pub fn owned(a: &str) -> (r: String)
    ensures
        r@ == a@,
{
    String::from_str(a)
}

pub fn cat2(a: &str, b: &str) -> (r: String)
    ensures
        r@ == a@ + b@,
{
    let mut s = String::from_str(a);
    s.append(b);
    s
}

pub fn cat3(a: &str, b: &str, c: &str) -> (r: String)
    ensures
        r@ == a@ + b@ + c@,
{
    let mut s = cat2(a, b);
    s.append(c);
    s
}

pub fn cat4(a: &str, b: &str, c: &str, d: &str) -> (r: String)
    ensures
        r@ == a@ + b@ + c@ + d@,
{
    let mut s = cat3(a, b, c);
    s.append(d);
    s
}

pub fn cat5(a: &str, b: &str, c: &str, d: &str, e: &str) -> (r: String)
    ensures
        r@ == a@ + b@ + c@ + d@ + e@,
{
    let mut s = cat4(a, b, c, d);
    s.append(e);
    s
}

pub fn cat6(a: &str, b: &str, c: &str, d: &str, e: &str, f: &str) -> (r: String)
    ensures
        r@ == a@ + b@ + c@ + d@ + e@ + f@,
{
    let mut s = cat5(a, b, c, d, e);
    s.append(f);
    s
}

pub fn cat7(a: &str, b: &str, c: &str, d: &str, e: &str, f: &str, g: &str) -> (r: String)
    ensures
        r@ == a@ + b@ + c@ + d@ + e@ + f@ + g@,
{
    let mut s = cat6(a, b, c, d, e, f);
    s.append(g);
    s
}

pub fn cat8(a: &str, b: &str, c: &str, d: &str, e: &str, f: &str, g: &str, h: &str) -> (r: String)
    ensures
        r@ == a@ + b@ + c@ + d@ + e@ + f@ + g@ + h@,
{
    let mut s = cat7(a, b, c, d, e, f, g);
    s.append(h);
    s
}

/// The first `n` parts of a list, with `sep` between consecutive ones.
pub open spec fn join_upto(parts: Seq<Seq<char>>, sep: Seq<char>, n: nat) -> Seq<char>
    decreases n,
{
    if n == 0 {
        Seq::empty()
    } else if n == 1 {
        parts[0]
    } else {
        join_upto(parts, sep, (n - 1) as nat) + sep + parts[n - 1]
    }
}

/// A list of texts with `sep` between consecutive ones.
pub open spec fn join_text(parts: Seq<Seq<char>>, sep: Seq<char>) -> Seq<char> {
    join_upto(parts, sep, parts.len())
}

pub fn join(parts: &Vec<String>, sep: &str) -> (r: String)
    ensures
        r@ == join_text(names_view(parts@), sep@),
{
    let mut s = String::new();
    let mut i: usize = 0;
    while i < parts.len()
        invariant
            i <= parts.len(),
            s@ == join_upto(names_view(parts@), sep@, i as nat),
        decreases parts.len() - i,
    {
        if i == 0 {
            s = parts[0].clone();
        } else {
            s.append(sep);
            s.append(parts[i].as_str());
        }
        i += 1;
    }
    s
}

// -- Numerals ---------------------------------------------------------------

/// The character of a digit, `0` to `9` and then `a` to `f`.
pub open spec fn digit_char(d: nat) -> char {
    if d < 10 {
        ('0' as u32 + d) as char
    } else {
        ('a' as u32 + d - 10) as char
    }
}

/// The numeral of `n` in a base from 2 to 16, without leading zeros.
pub open spec fn numeral(n: nat, base: nat) -> Seq<char>
    decreases n,
{
    if n < base || base < 2 {
        seq![digit_char(n)]
    } else {
        proof {
            assert(n / base < n) by (nonlinear_arith)
                requires
                    n >= base,
                    base >= 2,
            ;
        }
        numeral(n / base, base).push(digit_char(n % base))
    }
}

/// The decimal numeral of a natural number.
pub open spec fn dec_text(n: nat) -> Seq<char> {
    numeral(n, 10)
}

/// The decimal numeral of an integer.
pub open spec fn dec_int_text(n: int) -> Seq<char> {
    if n < 0 {
        "-"@ + dec_text((-n) as nat)
    } else {
        dec_text(n as nat)
    }
}

/// The lower-case hexadecimal numeral of a natural number.
pub open spec fn hex_text(n: nat) -> Seq<char> {
    numeral(n, 16)
}

fn digit(d: u8) -> (c: char)
    requires
        d < 16,
    ensures
        c == digit_char(d as nat),
{
    if d < 10 {
        (48u8 + d) as char
    } else {
        (87u8 + d) as char
    }
}

fn numeral_of(n: u128, base: u128) -> (r: String)
    requires
        2 <= base <= 16,
    ensures
        r@ == numeral(n as nat, base as nat),
    decreases n,
{
    if n < base {
        let mut s = String::new();
        s.push(digit(n as u8));
        assert(s@ =~= seq![digit_char(n as nat)]);
        s
    } else {
        assert(n / base < n) by (nonlinear_arith)
            requires
                n >= base,
                base >= 2,
        ;
        let mut s = numeral_of(n / base, base);
        assert(n % base < 16) by (nonlinear_arith)
            requires
                2 <= base <= 16,
        ;
        s.push(digit((n % base) as u8));
        s
    }
}

pub fn dec(n: u64) -> (r: String)
    ensures
        r@ == dec_text(n as nat),
{
    numeral_of(n as u128, 10)
}

pub fn dec_usize(n: usize) -> (r: String)
    ensures
        r@ == dec_text(n as nat),
{
    numeral_of(n as u128, 10)
}

pub fn hex(n: u64) -> (r: String)
    ensures
        r@ == hex_text(n as nat),
{
    numeral_of(n as u128, 16)
}

pub fn dec_int(n: i128) -> (r: String)
    requires
        n > i128::MIN,
    ensures
        r@ == dec_int_text(n as int),
{
    if n < 0 {
        cat2("-", numeral_of((-n) as u128, 10).as_str())
    } else {
        numeral_of(n as u128, 10)
    }
}

} // verus!
