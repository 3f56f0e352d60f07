//! The JSON value model and serializer used by the wire codec.
//!
//! The transport exchanges JSON frames. The protocol core only ever reads a
//! small, structural part of them (object fields holding strings, integers
//! and arrays); everything else is carried through opaquely. Numbers that are
//! not plain base-ten `u64` literals are kept as their raw text and never
//! interpreted.

use vstd::prelude::*;
use vstd::string::StringSliceAdditionalSpecFns;

verus! {

broadcast use vstd::std_specs::vec::group_vec_axioms;

/// A JSON value. String contents are UTF-8 bytes; a numeric literal that is
/// not a plain nonnegative integer fitting `u64` is kept raw in `Num`.
pub enum Value {
    Null,
    Bool(bool),
    Int(u64),
    Num(Vec<u8>),
    Str(Vec<u8>),
    Arr(Vec<Value>),
    Obj(Vec<(Vec<u8>, Value)>),
}

/// The value bound to `key` in an object's pair list: the first pair whose
/// key matches, as JSON objects are read front to back.
pub open spec fn lookup(pairs: Seq<(Vec<u8>, Value)>, key: Seq<u8>) -> Option<Value>
    decreases pairs.len(),
{
    if pairs.len() == 0 {
        None
    } else if pairs[0].0@ == key {
        Some(pairs[0].1)
    } else {
        lookup(pairs.skip(1), key)
    }
}

/// The field `key` of `v`, when `v` is an object that has it.
pub open spec fn obj_field(v: Value, key: Seq<u8>) -> Option<Value> {
    match v {
        Value::Obj(pairs) => lookup(pairs@, key),
        _ => None,
    }
}

/// Compares two byte strings for equality.
pub fn bytes_eq(a: &[u8], b: &[u8]) -> (r: bool)
    ensures
        r == (a@ == b@),
{
    if a.len() != b.len() {
        assert(a@.len() != b@.len());
        return false;
    }
    let mut i: usize = 0;
    while i < a.len()
        invariant
            0 <= i <= a@.len(),
            a@.len() == b@.len(),
            forall|j: int| 0 <= j < i ==> a@[j] == b@[j],
        decreases a@.len() - i,
    {
        if a[i] != b[i] {
            assert(a@[i as int] != b@[i as int]);
            return false;
        }
        i = i + 1;
    }
    assert(a@ =~= b@);
    true
}

/// Copies a byte string into an owned vector.
pub fn bytes_of(a: &[u8]) -> (r: Vec<u8>)
    ensures
        r@ == a@,
{
    vstd::slice::slice_to_vec(a)
}

/// The bytes of a string literal, for building protocol keywords.
pub fn lit_bytes(s: &str) -> (r: Vec<u8>)
    ensures
        r@ == s.spec_bytes(),
{
    vstd::slice::slice_to_vec(s.as_bytes())
}

/// The position of the first pair holding `key`, if the object has one.
pub fn find_key(pairs: &Vec<(Vec<u8>, Value)>, key: &str) -> (r: Option<usize>)
    ensures
        match r {
            Some(i) => {
                &&& i < pairs@.len()
                &&& pairs@[i as int].0@ == key.spec_bytes()
                &&& lookup(pairs@, key.spec_bytes()) == Some(pairs@[i as int].1)
                &&& forall|j: int| 0 <= j < i ==> pairs@[j].0@ != key.spec_bytes()
            },
            None => lookup(pairs@, key.spec_bytes()) is None,
        },
{
    let kb = key.as_bytes();
    let mut i: usize = 0;
    assert(pairs@.skip(0) =~= pairs@);
    while i < pairs.len()
        invariant
            0 <= i <= pairs@.len(),
            kb@ == key.spec_bytes(),
            lookup(pairs@, key.spec_bytes()) == lookup(pairs@.skip(i as int), key.spec_bytes()),
            forall|j: int| 0 <= j < i ==> pairs@[j].0@ != key.spec_bytes(),
        decreases pairs@.len() - i,
    {
        proof {
            assert(pairs@.skip(i as int)[0] == pairs@[i as int]);
            assert(pairs@.skip(i as int).skip(1) =~= pairs@.skip(i + 1));
        }
        if bytes_eq(pairs[i].0.as_slice(), kb) {
            return Some(i);
        }
        i = i + 1;
    }
    assert(pairs@.skip(i as int).len() == 0);
    None
}

/// A borrow of the field `key` of `v`, when `v` is an object that has it.
pub fn get_field<'a>(v: &'a Value, key: &str) -> (r: Option<&'a Value>)
    ensures
        match r {
            Some(f) => obj_field(*v, key.spec_bytes()) == Some(*f),
            None => obj_field(*v, key.spec_bytes()) is None,
        },
{
    match v {
        Value::Obj(pairs) => {
            match find_key(pairs, key) {
                Some(i) => Some(&pairs[i].1),
                None => None,
            }
        },
        _ => None,
    }
}

/// The string contents of field `key` of `m`, when it is a string.
pub open spec fn str_field(m: Value, key: Seq<u8>) -> Option<Seq<u8>> {
    match obj_field(m, key) {
        Some(v) => match v {
            Value::Str(s) => Some(s@),
            _ => None,
        },
        _ => None,
    }
}

/// The integer value of field `key` of `m`, when it is a plain integer.
pub open spec fn int_field(m: Value, key: Seq<u8>) -> Option<u64> {
    match obj_field(m, key) {
        Some(v) => match v {
            Value::Int(u) => Some(u),
            _ => None,
        },
        _ => None,
    }
}

/// The elements of field `key` of `m`, when it is an array.
pub open spec fn arr_field(m: Value, key: Seq<u8>) -> Option<Seq<Value>> {
    match obj_field(m, key) {
        Some(v) => match v {
            Value::Arr(elems) => Some(elems@),
            _ => None,
        },
        _ => None,
    }
}

// ------------------------------------------------------------------
// Serialization: the canonical rendering of a `Value` as JSON text.
// ------------------------------------------------------------------

/// The lower-case hexadecimal digit for `n` (0..16).
pub open spec fn hex_digit(n: int) -> u8 {
    if n < 10 {
        (48 + n) as u8
    } else {
        (87 + n) as u8
    }
}

/// The base-ten rendering of `n`, most significant digit first.
pub open spec fn dec_digits(n: nat) -> Seq<u8>
    decreases n,
{
    if n < 10 {
        seq![(48 + n) as u8]
    } else {
        dec_digits(n / 10).push((48 + n % 10) as u8)
    }
}

/// How one byte of string content is rendered: quote and backslash get a
/// backslash escape, control bytes a `\u00XX` escape, all else stands as is.
pub open spec fn esc_byte(b: u8) -> Seq<u8> {
    if b == 34 {
        seq![92u8, 34u8]
    } else if b == 92 {
        seq![92u8, 92u8]
    } else if b < 32 {
        seq![92u8, 117u8, 48u8, 48u8, hex_digit(b as int / 16), hex_digit(b as int % 16)]
    } else {
        seq![b]
    }
}

/// The rendering of string contents, byte for byte.
pub open spec fn esc(s: Seq<u8>) -> Seq<u8>
    decreases s.len(),
{
    if s.len() == 0 {
        Seq::empty()
    } else {
        esc_byte(s[0]) + esc(s.skip(1))
    }
}

/// The JSON text of `v`: no whitespace, object pairs in stored order.
pub open spec fn ser_value(v: Value) -> Seq<u8>
    decreases v,
{
    match v {
        Value::Null => seq![110u8, 117u8, 108u8, 108u8],
        Value::Bool(b) => if b {
            seq![116u8, 114u8, 117u8, 101u8]
        } else {
            seq![102u8, 97u8, 108u8, 115u8, 101u8]
        },
        Value::Int(u) => dec_digits(u as nat),
        Value::Num(raw) => raw@,
        Value::Str(s) => seq![34u8] + esc(s@) + seq![34u8],
        Value::Arr(elems) => seq![91u8] + ser_elems(elems@) + seq![93u8],
        Value::Obj(pairs) => seq![123u8] + ser_pairs(pairs@) + seq![125u8],
    }
}

/// The comma-joined renderings of array elements.
pub open spec fn ser_elems(s: Seq<Value>) -> Seq<u8>
    decreases s,
{
    if s.len() == 0 {
        Seq::empty()
    } else {
        ser_value(s[0]) + ser_elems_rest(s.skip(1))
    }
}

/// The renderings of the elements after the first, each preceded by a comma.
pub open spec fn ser_elems_rest(s: Seq<Value>) -> Seq<u8>
    decreases s,
{
    if s.len() == 0 {
        Seq::empty()
    } else {
        seq![44u8] + ser_value(s[0]) + ser_elems_rest(s.skip(1))
    }
}

/// The rendering of one object pair: quoted key, colon, value.
pub open spec fn ser_pair(p: (Vec<u8>, Value)) -> Seq<u8>
    decreases p,
{
    seq![34u8] + esc(p.0@) + seq![34u8, 58u8] + ser_value(p.1)
}

/// The comma-joined renderings of object pairs.
pub open spec fn ser_pairs(s: Seq<(Vec<u8>, Value)>) -> Seq<u8>
    decreases s,
{
    if s.len() == 0 {
        Seq::empty()
    } else {
        ser_pair(s[0]) + ser_pairs_rest(s.skip(1))
    }
}

/// The renderings of the pairs after the first, each preceded by a comma.
pub open spec fn ser_pairs_rest(s: Seq<(Vec<u8>, Value)>) -> Seq<u8>
    decreases s,
{
    if s.len() == 0 {
        Seq::empty()
    } else {
        seq![44u8] + ser_pair(s[0]) + ser_pairs_rest(s.skip(1))
    }
}

/// The rendering of a one-byte string is the rendering of its byte.
proof fn lemma_esc_one(b: u8)
    ensures
        esc(seq![b]) == esc_byte(b),
{
    assert(seq![b].skip(1) =~= Seq::<u8>::empty());
    assert(esc(seq![b].skip(1)) =~= Seq::<u8>::empty());
    assert(esc(seq![b]) =~= esc_byte(b));
}

/// `esc` distributes over concatenation.
proof fn lemma_esc_append(a: Seq<u8>, b: Seq<u8>)
    ensures
        esc(a + b) == esc(a) + esc(b),
    decreases a.len(),
{
    if a.len() == 0 {
        assert(a + b =~= b);
        assert(esc(a) =~= Seq::<u8>::empty());
        assert(esc(a) + esc(b) =~= esc(b));
    } else {
        assert((a + b)[0] == a[0]);
        assert((a + b).skip(1) =~= a.skip(1) + b);
        lemma_esc_append(a.skip(1), b);
        assert(esc(a + b) =~= esc(a) + esc(b));
    }
}

/// Appends the base-ten digits of `n`.
fn write_u64(n: u64, out: &mut Vec<u8>)
    ensures
        final(out)@ == old(out)@ + dec_digits(n as nat),
    decreases n,
{
    if n < 10 {
        out.push((48 + n) as u8);
        assert(out@ =~= old(out)@ + dec_digits(n as nat));
    } else {
        write_u64(n / 10, out);
        out.push((48 + (n % 10)) as u8);
        assert(out@ =~= old(out)@ + dec_digits(n as nat));
    }
}

/// Appends the escaped rendering of string contents.
pub(crate) fn write_escaped(s: &[u8], out: &mut Vec<u8>)
    ensures
        final(out)@ == old(out)@ + esc(s@),
{
    let mut i: usize = 0;
    while i < s.len()
        invariant
            0 <= i <= s@.len(),
            out@ == old(out)@ + esc(s@.take(i as int)),
        decreases s@.len() - i,
    {
        let b = s[i];
        if b == 34 {
            out.push(92);
            out.push(34);
        } else if b == 92 {
            out.push(92);
            out.push(92);
        } else if b < 32 {
            out.push(92);
            out.push(117);
            out.push(48);
            out.push(48);
            if b / 16 < 10 {
                out.push(48 + b / 16);
            } else {
                out.push(87 + b / 16);
            }
            if b % 16 < 10 {
                out.push(48 + b % 16);
            } else {
                out.push(87 + b % 16);
            }
        } else {
            out.push(b);
        }
        proof {
            assert(s@.take(i + 1) =~= s@.take(i as int) + seq![s@[i as int]]);
            lemma_esc_append(s@.take(i as int), seq![s@[i as int]]);
            lemma_esc_one(s@[i as int]);
            assert(out@ =~= old(out)@ + esc(s@.take(i + 1)));
        }
        i = i + 1;
    }
    assert(s@.take(i as int) =~= s@);
}

/// Appends the JSON text of `v` to `out`.
pub fn write_value(v: &Value, out: &mut Vec<u8>)
    ensures
        final(out)@ == old(out)@ + ser_value(*v),
    decreases *v,
{
    match v {
        Value::Null => {
            out.push(110);
            out.push(117);
            out.push(108);
            out.push(108);
            assert(out@ =~= old(out)@ + ser_value(*v));
        },
        Value::Bool(b) => {
            if *b {
                out.push(116);
                out.push(114);
                out.push(117);
                out.push(101);
            } else {
                out.push(102);
                out.push(97);
                out.push(108);
                out.push(115);
                out.push(101);
            }
            assert(out@ =~= old(out)@ + ser_value(*v));
        },
        Value::Int(u) => {
            write_u64(*u, out);
        },
        Value::Num(raw) => {
            let mut copy = bytes_of(raw.as_slice());
            out.append(&mut copy);
            assert(out@ =~= old(out)@ + ser_value(*v));
        },
        Value::Str(s) => {
            out.push(34);
            write_escaped(s.as_slice(), out);
            out.push(34);
            assert(out@ =~= old(out)@ + ser_value(*v));
        },
        Value::Arr(elems) => {
            out.push(91);
            if elems.len() > 0 {
                write_value(&elems[0], out);
                proof {
                    assert(decreases_to!(*v => *elems));
                    assert(decreases_to!(*elems => elems@));
                    assert(elems@.skip(1 as int - 1) =~= elems@);
                }
                write_elems_rest(elems, 1, out);
            }
            out.push(93);
            assert(out@ =~= old(out)@ + ser_value(*v));
        },
        Value::Obj(pairs) => {
            out.push(123);
            if pairs.len() > 0 {
                write_pair(&pairs[0], out);
                proof {
                    assert(decreases_to!(*v => *pairs));
                    assert(decreases_to!(*pairs => pairs@));
                    assert(pairs@.skip(1 as int - 1) =~= pairs@);
                }
                write_pairs_rest(pairs, 1, out);
            }
            out.push(125);
            assert(out@ =~= old(out)@ + ser_value(*v));
        },
    }
}

/// Appends `,` and the element for each element from position `i` on.
pub(crate) fn write_elems_rest(elems: &Vec<Value>, i: usize, out: &mut Vec<u8>)
    requires
        1 <= i <= elems@.len(),
    ensures
        final(out)@ == old(out)@ + ser_elems_rest(elems@.skip(i as int - 1).skip(1)),
    decreases elems@.skip(i as int - 1),
{
    proof {
        assert(elems@.skip(i as int - 1).skip(1) =~= elems@.skip(i as int));
    }
    if i < elems.len() {
        out.push(44);
        proof {
            assert(elems@.skip(i as int)[0] == elems@[i as int]);
            assert(decreases_to!(elems@.skip(i as int - 1) => elems@.skip(i as int - 1)[1]));
            assert(elems@.skip(i as int - 1)[1] == elems@[i as int]);
        }
        write_value(&elems[i], out);
        proof {
            assert(elems@.skip(i as int) =~= elems@.skip(i as int - 1).subrange(
                1,
                elems@.skip(i as int - 1).len() as int,
            ));
        }
        write_elems_rest(elems, i + 1, out);
        proof {
            assert(elems@.skip(i as int).skip(1) =~= elems@.skip(i + 1 as int));
            assert(out@ =~= old(out)@ + ser_elems_rest(elems@.skip(i as int)));
        }
    } else {
        assert(elems@.skip(i as int).len() == 0);
    }
}

/// Appends the rendering of one object pair.
fn write_pair(p: &(Vec<u8>, Value), out: &mut Vec<u8>)
    ensures
        final(out)@ == old(out)@ + ser_pair(*p),
    decreases *p,
{
    out.push(34);
    write_escaped(p.0.as_slice(), out);
    out.push(34);
    out.push(58);
    write_value(&p.1, out);
    assert(out@ =~= old(out)@ + ser_pair(*p));
}

/// Appends `,` and the pair for each pair from position `i` on.
fn write_pairs_rest(pairs: &Vec<(Vec<u8>, Value)>, i: usize, out: &mut Vec<u8>)
    requires
        1 <= i <= pairs@.len(),
    ensures
        final(out)@ == old(out)@ + ser_pairs_rest(pairs@.skip(i as int - 1).skip(1)),
    decreases pairs@.skip(i as int - 1),
{
    proof {
        assert(pairs@.skip(i as int - 1).skip(1) =~= pairs@.skip(i as int));
    }
    if i < pairs.len() {
        out.push(44);
        proof {
            assert(pairs@.skip(i as int)[0] == pairs@[i as int]);
        }
        write_pair(&pairs[i], out);
        proof {
            assert(pairs@.skip(i as int) =~= pairs@.skip(i as int - 1).subrange(
                1,
                pairs@.skip(i as int - 1).len() as int,
            ));
        }
        write_pairs_rest(pairs, i + 1, out);
        proof {
            assert(pairs@.skip(i as int).skip(1) =~= pairs@.skip(i + 1 as int));
            assert(out@ =~= old(out)@ + ser_pairs_rest(pairs@.skip(i as int)));
        }
    } else {
        assert(pairs@.skip(i as int).len() == 0);
    }
}

/// The JSON text of `v` as an owned byte string.
pub fn to_bytes(v: &Value) -> (r: Vec<u8>)
    ensures
        r@ == ser_value(*v),
{
    let mut out: Vec<u8> = Vec::new();
    write_value(v, &mut out);
    assert(out@ =~= ser_value(*v));
    out
}


// ------------------------------------------------------------------
// Parsing: the grammar as a mathematical parser, and its executable
// mirror. The parser below returns exactly what the specification
// functions compute, on every input.
// ------------------------------------------------------------------

/// A parsed JSON tree on the mathematical side, mirroring `Value`.
pub ghost enum JsonTree {
    Null,
    Bool(bool),
    Int(u64),
    Num(Seq<u8>),
    Str(Seq<u8>),
    Arr(Seq<JsonTree>),
    Obj(Seq<(Seq<u8>, JsonTree)>),
}

/// The trees of a vector of values, in order.
pub open spec fn trees_of(s: Seq<Value>) -> Seq<JsonTree>
    decreases s, 1int,
{
    if s.len() == 0 {
        Seq::empty()
    } else {
        seq![tree_of(s[0])] + trees_of(s.skip(1))
    }
}

/// The keyed trees of an object's pair list, in order.
pub open spec fn keyed_trees_of(s: Seq<(Vec<u8>, Value)>) -> Seq<(Seq<u8>, JsonTree)>
    decreases s, 1int,
{
    if s.len() == 0 {
        Seq::empty()
    } else {
        seq![(s[0].0@, tree_of(s[0].1))] + keyed_trees_of(s.skip(1))
    }
}

/// The mathematical tree of a `Value`.
pub open spec fn tree_of(v: Value) -> JsonTree
    decreases v, 0int,
{
    match v {
        Value::Null => JsonTree::Null,
        Value::Bool(b) => JsonTree::Bool(b),
        Value::Int(u) => JsonTree::Int(u),
        Value::Num(raw) => JsonTree::Num(raw@),
        Value::Str(b) => JsonTree::Str(b@),
        Value::Arr(elems) => JsonTree::Arr(trees_of(elems@)),
        Value::Obj(pairs) => JsonTree::Obj(keyed_trees_of(pairs@)),
    }
}

/// JSON whitespace.
pub open spec fn is_ws(b: u8) -> bool {
    b == 32 || b == 9 || b == 10 || b == 13
}

/// A decimal digit.
pub open spec fn is_digit(b: u8) -> bool {
    48 <= b <= 57
}

/// A byte that may stand in a JSON number literal.
pub open spec fn is_num_byte(b: u8) -> bool {
    is_digit(b) || b == 45 || b == 43 || b == 46 || b == 101 || b == 69
}

/// Every byte of `t` is a decimal digit.
pub open spec fn all_digits(t: Seq<u8>) -> bool {
    forall|k: int| 0 <= k < t.len() ==> is_digit(#[trigger] t[k])
}

/// The numeric value of a digit string, most significant digit first.
pub open spec fn digits_val(s: Seq<u8>) -> nat
    decreases s.len(),
{
    if s.len() == 0 {
        0
    } else {
        digits_val(s.take(s.len() - 1)) * 10 + (s[s.len() - 1] - 48) as nat
    }
}

/// The value of a hexadecimal digit byte, if it is one.
pub open spec fn spec_hex_val(b: u8) -> Option<int> {
    if 48 <= b <= 57 {
        Some(b - 48)
    } else if 97 <= b <= 102 {
        Some(b - 87)
    } else if 65 <= b <= 70 {
        Some(b - 55)
    } else {
        None
    }
}

/// The UTF-8 encoding of a code point below 0x10000.
pub open spec fn utf8_enc(cp: int) -> Seq<u8> {
    if cp < 0x80 {
        seq![cp as u8]
    } else if cp < 0x800 {
        seq![(192 + cp / 64) as u8, (128 + cp % 64) as u8]
    } else {
        seq![(224 + cp / 4096) as u8, (128 + (cp / 64) % 64) as u8, (128 + cp % 64) as u8]
    }
}

/// The first position at or after `i` holding no whitespace.
pub open spec fn sp_ws(s: Seq<u8>, i: int) -> int
    decreases s.len() - i,
{
    if 0 <= i < s.len() && is_ws(s[i]) {
        sp_ws(s, i + 1)
    } else {
        i
    }
}

/// `sp_ws`, clamped into `i..=s.len()` so that positions always advance.
/// On positions inside the input the clamp never bites.
pub open spec fn ws_from(s: Seq<u8>, i: int) -> int {
    let w = sp_ws(s, i);
    if i <= w <= s.len() {
        w
    } else {
        i
    }
}

/// A parse result position, clamped to lie in `a+1..=n` so that positions
/// always advance. On real results the clamp never bites.
pub open spec fn step_pos(j: int, a: int, n: int) -> int {
    if a < j <= n {
        j
    } else if a + 1 <= n {
        a + 1
    } else {
        n
    }
}

/// The end of the number token opening at `i`.
pub open spec fn sp_num_end(s: Seq<u8>, i: int) -> int
    decreases s.len() - i,
{
    if 0 <= i < s.len() && is_num_byte(s[i]) {
        sp_num_end(s, i + 1)
    } else {
        i
    }
}

/// Reads string contents from `i` (inside the quotes) to the closing
/// quote: resolves backslash escapes, refuses raw control bytes, bad
/// escapes and surrogate code points. Yields the contents and the position
/// after the closing quote.
pub open spec fn sp_str_content(s: Seq<u8>, i: int) -> Option<(Seq<u8>, int)>
    decreases s.len() - i,
{
    if i < 0 || i >= s.len() {
        None
    } else if s[i] == 34 {
        Some((Seq::empty(), i + 1))
    } else if s[i] == 92 {
        if i + 2 > s.len() {
            None
        } else {
            let c = s[i + 1];
            if c == 34 || c == 92 || c == 47 {
                match sp_str_content(s, i + 2) {
                    Some(r) => Some((seq![c] + r.0, r.1)),
                    None => None,
                }
            } else if c == 98 || c == 102 || c == 110 || c == 114 || c == 116 {
                let d: u8 = if c == 98 {
                    8
                } else if c == 102 {
                    12
                } else if c == 110 {
                    10
                } else if c == 114 {
                    13
                } else {
                    9
                };
                match sp_str_content(s, i + 2) {
                    Some(r) => Some((seq![d] + r.0, r.1)),
                    None => None,
                }
            } else if c == 117 {
                if i + 6 > s.len() {
                    None
                } else {
                    match (spec_hex_val(s[i + 2]), spec_hex_val(s[i + 3]), spec_hex_val(s[i + 4]),
                    spec_hex_val(s[i + 5])) {
                        (Some(h1), Some(h2), Some(h3), Some(h4)) => {
                            let cp = h1 * 4096 + h2 * 256 + h3 * 16 + h4;
                            if 0xD800 <= cp < 0xE000 {
                                None
                            } else {
                                match sp_str_content(s, i + 6) {
                                    Some(r) => Some((utf8_enc(cp) + r.0, r.1)),
                                    None => None,
                                }
                            }
                        },
                        _ => None,
                    }
                }
            } else {
                None
            }
        }
    } else if s[i] < 32 {
        None
    } else {
        match sp_str_content(s, i + 1) {
            Some(r) => Some((seq![s[i]] + r.0, r.1)),
            None => None,
        }
    }
}

/// Reads the number opening at `i`: the canonical base-ten form of a `u64`
/// becomes `Int`, any other number literal keeps its raw text as `Num`.
pub open spec fn sp_number(s: Seq<u8>, i: int) -> (JsonTree, int) {
    let e = sp_num_end(s, i);
    let t = s.subrange(i, e);
    if all_digits(t) && t.len() >= 1 && (t.len() == 1 || t[0] != 48) && digits_val(t)
        <= u64::MAX {
        (JsonTree::Int(digits_val(t) as u64), e)
    } else {
        (JsonTree::Num(t), e)
    }
}

/// Reads one JSON value opening at `i`, no leading whitespace allowed.
/// Yields the tree and the position after the value.
pub open spec fn sp_value(s: Seq<u8>, i: int) -> Option<(JsonTree, int)>
    decreases s.len() - i, 0int,
{
    if i < 0 || i >= s.len() {
        None
    } else {
        let b = s[i];
        if b == 110 {
            if s.len() - i >= 4 && s[i + 1] == 117 && s[i + 2] == 108 && s[i + 3] == 108 {
                Some((JsonTree::Null, i + 4))
            } else {
                None
            }
        } else if b == 116 {
            if s.len() - i >= 4 && s[i + 1] == 114 && s[i + 2] == 117 && s[i + 3] == 101 {
                Some((JsonTree::Bool(true), i + 4))
            } else {
                None
            }
        } else if b == 102 {
            if s.len() - i >= 5 && s[i + 1] == 97 && s[i + 2] == 108 && s[i + 3] == 115 && s[i
                + 4] == 101 {
                Some((JsonTree::Bool(false), i + 5))
            } else {
                None
            }
        } else if b == 34 {
            match sp_str_content(s, i + 1) {
                Some(r) => Some((JsonTree::Str(r.0), r.1)),
                None => None,
            }
        } else if is_digit(b) || b == 45 {
            let r = sp_number(s, i);
            Some((r.0, r.1))
        } else if b == 91 {
            let a = ws_from(s, i + 1);
            if a >= s.len() {
                None
            } else if s[a] == 93 {
                Some((JsonTree::Arr(Seq::empty()), a + 1))
            } else {
                match sp_value(s, a) {
                    Some(r0) => {
                        match sp_arr_rest(s, step_pos(r0.1, a, s.len() as int)) {
                            Some(r1) => Some((JsonTree::Arr(seq![r0.0] + r1.0), r1.1)),
                            None => None,
                        }
                    },
                    None => None,
                }
            }
        } else if b == 123 {
            let a = ws_from(s, i + 1);
            if a >= s.len() {
                None
            } else if s[a] == 125 {
                Some((JsonTree::Obj(Seq::empty()), a + 1))
            } else {
                match sp_member(s, a) {
                    Some(r0) => {
                        match sp_obj_rest(s, step_pos(r0.1, a, s.len() as int)) {
                            Some(r1) => Some((JsonTree::Obj(seq![r0.0] + r1.0), r1.1)),
                            None => None,
                        }
                    },
                    None => None,
                }
            }
        } else {
            None
        }
    }
}

/// Reads one object member opening at `i` (at its key's quote): the key,
/// whitespace, a colon, whitespace, and the value.
pub open spec fn sp_member(s: Seq<u8>, i: int) -> Option<((Seq<u8>, JsonTree), int)>
    decreases s.len() - i, 1int,
{
    if 0 <= i < s.len() && s[i] == 34 {
        match sp_str_content(s, i + 1) {
            Some(rk) => {
                let k = step_pos(rk.1, i + 1, s.len() as int);
                let c = ws_from(s, k);
                if c >= s.len() || s[c] != 58 {
                    None
                } else {
                    let a = ws_from(s, c + 1);
                    match sp_value(s, a) {
                        Some(rv) => Some(((rk.0, rv.0), rv.1)),
                        None => None,
                    }
                }
            },
            None => None,
        }
    } else {
        None
    }
}

/// Reads the rest of an array body, standing just after an element: either
/// the closing bracket, or a comma and the next element and the rest.
pub open spec fn sp_arr_rest(s: Seq<u8>, pos: int) -> Option<(Seq<JsonTree>, int)>
    decreases s.len() - pos, 2int,
{
    let a = ws_from(s, pos);
    if a >= s.len() {
        None
    } else if s[a] == 93 {
        Some((Seq::empty(), a + 1))
    } else if s[a] != 44 {
        None
    } else {
        let a2 = ws_from(s, a + 1);
        match sp_value(s, a2) {
            Some(r0) => {
                match sp_arr_rest(s, step_pos(r0.1, a2, s.len() as int)) {
                    Some(r1) => Some((seq![r0.0] + r1.0, r1.1)),
                    None => None,
                }
            },
            None => None,
        }
    }
}

/// Reads the rest of an object body, standing just after a member: either
/// the closing brace, or a comma and the next member and the rest.
pub open spec fn sp_obj_rest(s: Seq<u8>, pos: int) -> Option<(Seq<(Seq<u8>, JsonTree)>, int)>
    decreases s.len() - pos, 2int,
{
    let a = ws_from(s, pos);
    if a >= s.len() {
        None
    } else if s[a] == 125 {
        Some((Seq::empty(), a + 1))
    } else if s[a] != 44 {
        None
    } else {
        let a2 = ws_from(s, a + 1);
        match sp_member(s, a2) {
            Some(r0) => {
                match sp_obj_rest(s, step_pos(r0.1, a2, s.len() as int)) {
                    Some(r1) => Some((seq![r0.0] + r1.0, r1.1)),
                    None => None,
                }
            },
            None => None,
        }
    }
}

/// Reads a whole text: one value with whitespace around it, nothing else.
pub open spec fn sp_text(s: Seq<u8>) -> Option<JsonTree> {
    let i = ws_from(s, 0);
    match sp_value(s, i) {
        Some(r) => {
            if ws_from(s, r.1) == s.len() {
                Some(r.0)
            } else {
                None
            }
        },
        None => None,
    }
}

/// The position of the first byte from `i` on that is not whitespace.
fn skip_ws(s: &[u8], i: usize) -> (r: usize)
    requires
        i <= s@.len(),
    ensures
        i <= r <= s@.len(),
        r as int == sp_ws(s@, i as int),
        r < s@.len() ==> !is_ws(s@[r as int]),
{
    let mut p = i;
    while p < s.len()
        invariant
            i <= p <= s@.len(),
            sp_ws(s@, i as int) == sp_ws(s@, p as int),
        decreases s@.len() - p,
    {
        let b = s[p];
        if !(b == 32 || b == 9 || b == 10 || b == 13) {
            return p;
        }
        p = p + 1;
    }
    p
}

/// The value of a hexadecimal digit byte.
fn hex_val(b: u8) -> (r: Option<u8>)
    ensures
        match r {
            Some(h) => spec_hex_val(b) == Some(h as int) && h < 16,
            None => spec_hex_val(b) is None,
        },
{
    if 48 <= b && b <= 57 {
        Some(b - 48)
    } else if 97 <= b && b <= 102 {
        Some(b - 87)
    } else if 65 <= b && b <= 70 {
        Some(b - 55)
    } else {
        None
    }
}

/// Reads string contents from `pos` (inside the quotes) to the closing
/// quote, exactly as the grammar does.
#[verifier::rlimit(60)]
fn parse_str_content(s: &[u8], pos: usize) -> (r: Option<(Vec<u8>, usize)>)
    requires
        pos <= s@.len(),
    ensures
        match r {
            Some(p) => sp_str_content(s@, pos as int) == Some((p.0@, p.1 as int)) && pos < p.1
                <= s@.len(),
            None => sp_str_content(s@, pos as int) is None,
        },
    decreases s@.len() - pos,
{
    if pos >= s.len() {
        return None;
    }
    let b = s[pos];
    if b == 34 {
        let out: Vec<u8> = Vec::new();
        assert(out@ =~= Seq::<u8>::empty());
        return Some((out, pos + 1));
    }
    if b == 92 {
        if s.len() - pos < 2 {
            return None;
        }
        let c = s[pos + 1];
        if c == 34 || c == 92 || c == 47 {
            match parse_str_content(s, pos + 2) {
                Some((mut rest, j)) => {
                    let ghost rest0 = rest@;
                    rest.insert(0, c);
                    proof {
                        assert(rest@ =~= seq![c] + rest0);
                    }
                    Some((rest, j))
                },
                None => None,
            }
        } else if c == 98 || c == 102 || c == 110 || c == 114 || c == 116 {
            let d: u8 = if c == 98 {
                8
            } else if c == 102 {
                12
            } else if c == 110 {
                10
            } else if c == 114 {
                13
            } else {
                9
            };
            match parse_str_content(s, pos + 2) {
                Some((mut rest, j)) => {
                    let ghost rest0 = rest@;
                    rest.insert(0, d);
                    proof {
                        assert(rest@ =~= seq![d] + rest0);
                    }
                    Some((rest, j))
                },
                None => None,
            }
        } else if c == 117 {
            if s.len() - pos < 6 {
                return None;
            }
            let h1 = match hex_val(s[pos + 2]) {
                Some(h) => h,
                None => {
                    return None;
                },
            };
            let h2 = match hex_val(s[pos + 3]) {
                Some(h) => h,
                None => {
                    return None;
                },
            };
            let h3 = match hex_val(s[pos + 4]) {
                Some(h) => h,
                None => {
                    return None;
                },
            };
            let h4 = match hex_val(s[pos + 5]) {
                Some(h) => h,
                None => {
                    return None;
                },
            };
            let cp: u32 = (h1 as u32) * 4096 + (h2 as u32) * 256 + (h3 as u32) * 16 + (h4 as u32);
            if 0xD800 <= cp && cp < 0xE000 {
                return None;
            }
            match parse_str_content(s, pos + 6) {
                Some((mut rest, j)) => {
                    let ghost rest0 = rest@;
                    if cp < 0x80 {
                        rest.insert(0, cp as u8);
                    } else if cp < 0x800 {
                        rest.insert(0, 128 + (cp % 64) as u8);
                        rest.insert(0, 192 + (cp / 64) as u8);
                    } else {
                        rest.insert(0, 128 + (cp % 64) as u8);
                        rest.insert(0, 128 + ((cp / 64) % 64) as u8);
                        rest.insert(0, 224 + (cp / 4096) as u8);
                    }
                    proof {
                        assert(rest@ =~= utf8_enc(cp as int) + rest0);
                    }
                    Some((rest, j))
                },
                None => None,
            }
        } else {
            None
        }
    } else if b < 32 {
        None
    } else {
        match parse_str_content(s, pos + 1) {
            Some((mut rest, j)) => {
                let ghost rest0 = rest@;
                rest.insert(0, b);
                proof {
                    assert(rest@ =~= seq![b] + rest0);
                }
                Some((rest, j))
            },
            None => None,
        }
    }
}

/// A digit string's value never shrinks as the string grows to the right.
proof fn lemma_digits_val_mono(t: Seq<u8>, k: int)
    requires
        0 <= k <= t.len(),
    ensures
        digits_val(t) >= digits_val(t.take(k)),
    decreases t.len() - k,
{
    if k < t.len() {
        let t1 = t.take(k + 1);
        assert(t1.take(k) =~= t.take(k));
        assert(digits_val(t1) == digits_val(t.take(k)) * 10 + (t1[k] - 48) as nat);
        lemma_digits_val_mono(t, k + 1);
    } else {
        assert(t.take(k) =~= t);
    }
}

/// The end of the number token opening at `i`.
fn scan_num_end(s: &[u8], i: usize) -> (r: usize)
    requires
        i <= s@.len(),
    ensures
        i <= r <= s@.len(),
        r as int == sp_num_end(s@, i as int),
        r < s@.len() ==> !is_num_byte(s@[r as int]),
{
    let mut p = i;
    while p < s.len()
        invariant
            i <= p <= s@.len(),
            sp_num_end(s@, i as int) == sp_num_end(s@, p as int),
        decreases s@.len() - p,
    {
        let b = s[p];
        if !(48 <= b && b <= 57 || b == 45 || b == 43 || b == 46 || b == 101 || b == 69) {
            return p;
        }
        p = p + 1;
    }
    p
}

/// Reads the number opening at `i`, exactly as the grammar does.
fn parse_number(s: &[u8], i: usize) -> (r: (Value, usize))
    requires
        i < s@.len(),
        is_digit(s@[i as int]) || s@[i as int] == 45,
    ensures
        i < r.1 <= s@.len(),
        sp_number(s@, i as int) == (tree_of(r.0), r.1 as int),
    decreases s@.len() - i,
{
    let p = scan_num_end(s, i);
    assert(p > i) by {
        assert(is_num_byte(s@[i as int]));
    }
    let ghost token = s@.subrange(i as int, p as int);
    let mut digits_ok = true;
    let mut fits = true;
    let ghost mut bad: int = 0;
    let ghost mut over: int = 0;
    let mut acc: u64 = 0;
    let mut k = i;
    while k < p
        invariant
            i <= k <= p <= s@.len(),
            token == s@.subrange(i as int, p as int),
            digits_ok ==> forall|q: int| i <= q < k ==> is_digit(#[trigger] s@[q]),
            !digits_ok ==> i <= bad < k && !is_digit(s@[bad]),
            digits_ok && fits ==> acc as nat == digits_val(s@.subrange(i as int, k as int)),
            digits_ok && !fits ==> i <= over <= k && digits_val(
                s@.subrange(i as int, over),
            ) > u64::MAX,
        decreases p - k,
    {
        let b = s[k];
        if !(48 <= b && b <= 57) {
            if digits_ok {
                proof {
                    bad = k as int;
                }
            }
            digits_ok = false;
        } else if digits_ok && fits {
            let d = b - 48;
            proof {
                let t1 = s@.subrange(i as int, k + 1);
                assert(t1.take(t1.len() - 1) =~= s@.subrange(i as int, k as int));
                assert(t1[t1.len() - 1] == s@[k as int]);
            }
            if acc > (u64::MAX - d as u64) / 10 {
                proof {
                    over = k + 1;
                    assert(acc as nat * 10 + d as nat > u64::MAX) by (nonlinear_arith)
                        requires
                            acc as nat > (u64::MAX - d as u64) as nat / 10,
                            d < 10,
                    ;
                }
                fits = false;
            } else {
                proof {
                    assert(acc as nat * 10 + d as nat <= u64::MAX) by (nonlinear_arith)
                        requires
                            acc as nat <= (u64::MAX - d as u64) as nat / 10,
                            d < 10,
                    ;
                }
                acc = acc * 10 + d as u64;
            }
        }
        k = k + 1;
    }
    let canonical = digits_ok && fits && (p - i == 1 || s[i] != 48);
    proof {
        if digits_ok {
            assert(forall|q: int| 0 <= q < token.len() ==> is_digit(#[trigger] token[q]));
            assert(all_digits(token));
            if !fits {
                lemma_digits_val_mono(token, over - i);
                assert(token.take(over - i) =~= s@.subrange(i as int, over));
                assert(digits_val(token) > u64::MAX);
            } else {
                assert(token =~= s@.subrange(i as int, k as int));
            }
        } else {
            assert(!is_digit(token[bad - i]));
            assert(!all_digits(token));
        }
    }
    if canonical {
        (Value::Int(acc), p)
    } else {
        let raw = bytes_of(&s[i..p]);
        (Value::Num(raw), p)
    }
}

/// Reads one JSON value opening at `i`, exactly as the grammar does.
pub fn parse_value(s: &[u8], i: usize) -> (r: Option<(Value, usize)>)
    requires
        i <= s@.len(),
    ensures
        match r {
            Some(p) => sp_value(s@, i as int) == Some((tree_of(p.0), p.1 as int)) && i < p.1
                <= s@.len(),
            None => sp_value(s@, i as int) is None,
        },
    decreases s@.len() - i, 0int,
{
    if i >= s.len() {
        return None;
    }
    let b = s[i];
    if b == 110 {
        if s.len() - i >= 4 && s[i + 1] == 117 && s[i + 2] == 108 && s[i + 3] == 108 {
            Some((Value::Null, i + 4))
        } else {
            None
        }
    } else if b == 116 {
        if s.len() - i >= 4 && s[i + 1] == 114 && s[i + 2] == 117 && s[i + 3] == 101 {
            Some((Value::Bool(true), i + 4))
        } else {
            None
        }
    } else if b == 102 {
        if s.len() - i >= 5 && s[i + 1] == 97 && s[i + 2] == 108 && s[i + 3] == 115 && s[i + 4]
            == 101 {
            Some((Value::Bool(false), i + 5))
        } else {
            None
        }
    } else if b == 34 {
        match parse_str_content(s, i + 1) {
            Some((bytes, j)) => Some((Value::Str(bytes), j)),
            None => None,
        }
    } else if 48 <= b && b <= 57 || b == 45 {
        let (v, j) = parse_number(s, i);
        Some((v, j))
    } else if b == 91 {
        let a = skip_ws(s, i + 1);
        if a >= s.len() {
            return None;
        }
        if s[a] == 93 {
            let out: Vec<Value> = Vec::new();
            proof {
                assert(trees_of(out@) =~= Seq::<JsonTree>::empty());
                assert(tree_of(Value::Arr(out)) == JsonTree::Arr(Seq::empty()));
            }
            return Some((Value::Arr(out), a + 1));
        }
        match parse_value(s, a) {
            Some((v0, b0)) => {
                assert(step_pos(b0 as int, a as int, s@.len() as int) == b0 as int);
                match parse_arr_rest(s, b0) {
                    Some((mut rest, j)) => {
                        let ghost rest0 = rest@;
                        rest.insert(0, v0);
                        proof {
                            assert(rest@[0] == v0);
                            assert(rest@.skip(1) =~= rest0);
                            assert(trees_of(rest@) =~= seq![tree_of(v0)] + trees_of(rest0));
                        }
                        Some((Value::Arr(rest), j))
                    },
                    None => None,
                }
            },
            None => None,
        }
    } else if b == 123 {
        let a = skip_ws(s, i + 1);
        if a >= s.len() {
            return None;
        }
        if s[a] == 125 {
            let out: Vec<(Vec<u8>, Value)> = Vec::new();
            proof {
                assert(keyed_trees_of(out@) =~= Seq::<(Seq<u8>, JsonTree)>::empty());
                assert(tree_of(Value::Obj(out)) == JsonTree::Obj(Seq::empty()));
            }
            return Some((Value::Obj(out), a + 1));
        }
        match parse_member(s, a) {
            Some((m0, b0)) => {
                assert(step_pos(b0 as int, a as int, s@.len() as int) == b0 as int);
                match parse_obj_rest(s, b0) {
                    Some((mut rest, j)) => {
                        let ghost rest0 = rest@;
                        rest.insert(0, m0);
                        proof {
                            assert(rest@[0] == m0);
                            assert(rest@.skip(1) =~= rest0);
                            assert(keyed_trees_of(rest@) =~= seq![(m0.0@, tree_of(m0.1))]
                                + keyed_trees_of(rest0));
                        }
                        Some((Value::Obj(rest), j))
                    },
                    None => None,
                }
            },
            None => None,
        }
    } else {
        None
    }
}

/// Reads one object member opening at `i`, exactly as the grammar does.
fn parse_member(s: &[u8], i: usize) -> (r: Option<((Vec<u8>, Value), usize)>)
    requires
        i <= s@.len(),
    ensures
        match r {
            Some(p) => sp_member(s@, i as int) == Some((((p.0).0@, tree_of((p.0).1)), p.1 as int))
                && i < p.1 <= s@.len(),
            None => sp_member(s@, i as int) is None,
        },
    decreases s@.len() - i, 1int,
{
    if i >= s.len() || s[i] != 34 {
        return None;
    }
    let (key, k) = match parse_str_content(s, i + 1) {
        Some(p) => p,
        None => {
            return None;
        },
    };
    assert(step_pos(k as int, i + 1, s@.len() as int) == k as int);
    let c = skip_ws(s, k);
    if c >= s.len() || s[c] != 58 {
        return None;
    }
    let a = skip_ws(s, c + 1);
    match parse_value(s, a) {
        Some((v, b)) => Some(((key, v), b)),
        None => None,
    }
}

/// Reads the rest of an array body, standing just after an element,
/// exactly as the grammar does.
fn parse_arr_rest(s: &[u8], pos: usize) -> (r: Option<(Vec<Value>, usize)>)
    requires
        pos <= s@.len(),
    ensures
        match r {
            Some(p) => sp_arr_rest(s@, pos as int) == Some((trees_of(p.0@), p.1 as int)) && pos
                < p.1 <= s@.len(),
            None => sp_arr_rest(s@, pos as int) is None,
        },
    decreases s@.len() - pos, 2int,
{
    let a = skip_ws(s, pos);
    if a >= s.len() {
        return None;
    }
    if s[a] == 93 {
        let out: Vec<Value> = Vec::new();
        proof {
            assert(trees_of(out@) =~= Seq::<JsonTree>::empty());
        }
        return Some((out, a + 1));
    }
    if s[a] != 44 {
        return None;
    }
    let a2 = skip_ws(s, a + 1);
    match parse_value(s, a2) {
        Some((v0, b0)) => {
            assert(step_pos(b0 as int, a2 as int, s@.len() as int) == b0 as int);
            match parse_arr_rest(s, b0) {
                Some((mut rest, j)) => {
                    let ghost rest0 = rest@;
                    rest.insert(0, v0);
                    proof {
                        assert(rest@[0] == v0);
                        assert(rest@.skip(1) =~= rest0);
                        assert(trees_of(rest@) =~= seq![tree_of(v0)] + trees_of(rest0));
                    }
                    Some((rest, j))
                },
                None => None,
            }
        },
        None => None,
    }
}

/// Reads the rest of an object body, standing just after a member,
/// exactly as the grammar does.
fn parse_obj_rest(s: &[u8], pos: usize) -> (r: Option<(Vec<(Vec<u8>, Value)>, usize)>)
    requires
        pos <= s@.len(),
    ensures
        match r {
            Some(p) => sp_obj_rest(s@, pos as int) == Some((keyed_trees_of(p.0@), p.1 as int))
                && pos < p.1 <= s@.len(),
            None => sp_obj_rest(s@, pos as int) is None,
        },
    decreases s@.len() - pos, 2int,
{
    let a = skip_ws(s, pos);
    if a >= s.len() {
        return None;
    }
    if s[a] == 125 {
        let out: Vec<(Vec<u8>, Value)> = Vec::new();
        proof {
            assert(keyed_trees_of(out@) =~= Seq::<(Seq<u8>, JsonTree)>::empty());
        }
        return Some((out, a + 1));
    }
    if s[a] != 44 {
        return None;
    }
    let a2 = skip_ws(s, a + 1);
    match parse_member(s, a2) {
        Some((m0, b0)) => {
            assert(step_pos(b0 as int, a2 as int, s@.len() as int) == b0 as int);
            match parse_obj_rest(s, b0) {
                Some((mut rest, j)) => {
                    let ghost rest0 = rest@;
                    rest.insert(0, m0);
                    proof {
                        assert(rest@[0] == m0);
                        assert(rest@.skip(1) =~= rest0);
                        assert(keyed_trees_of(rest@) =~= seq![(m0.0@, tree_of(m0.1))]
                            + keyed_trees_of(rest0));
                    }
                    Some((rest, j))
                },
                None => None,
            }
        },
        None => None,
    }
}

/// Reads a whole JSON text: one value with whitespace allowed around it
/// and nothing else. Returns exactly what the grammar says the text reads
/// as, and refuses exactly the texts the grammar refuses.
pub fn parse_bytes(s: &[u8]) -> (r: Option<Value>)
    ensures
        match r {
            Some(v) => sp_text(s@) == Some(tree_of(v)),
            None => sp_text(s@) is None,
        },
{
    let i = skip_ws(s, 0);
    match parse_value(s, i) {
        Some((v, j)) => {
            let q = skip_ws(s, j);
            if q == s.len() {
                Some(v)
            } else {
                None
            }
        },
        None => None,
    }
}

// ------------------------------------------------------------------
// The codec round trip: the canonical rendering of a well-formed value
// reads back as that value.
// ------------------------------------------------------------------

/// The shape of a raw number literal: nonempty, made of number bytes,
/// opening with a digit or a minus sign.
pub open spec fn num_shape(s: Seq<u8>) -> bool {
    &&& s.len() >= 1
    &&& (is_digit(s[0]) || s[0] == 45)
    &&& forall|k: int| 0 <= k < s.len() ==> is_num_byte(#[trigger] s[k])
}

/// A raw number literal the grammar would read back exactly as `Int`
/// rather than as raw text.
pub open spec fn canonical_u64(t: Seq<u8>) -> bool {
    &&& all_digits(t)
    &&& t.len() >= 1
    &&& (t.len() == 1 || t[0] != 48)
    &&& digits_val(t) <= u64::MAX
}

/// A value whose rendering reads back as itself: every raw number literal
/// kept inside has a number's shape and is not the canonical form of a
/// `u64` (the parser reads that form as `Int`).
pub open spec fn wf_value(v: Value) -> bool
    decreases v, 0int,
{
    match v {
        Value::Num(raw) => num_shape(raw@) && !canonical_u64(raw@),
        Value::Arr(elems) => wf_elems(elems@),
        Value::Obj(pairs) => wf_pairs(pairs@),
        _ => true,
    }
}

/// Every element is well formed.
pub open spec fn wf_elems(s: Seq<Value>) -> bool
    decreases s, 1int,
{
    if s.len() == 0 {
        true
    } else {
        wf_value(s[0]) && wf_elems(s.skip(1))
    }
}

/// Every member's value is well formed.
pub open spec fn wf_pairs(s: Seq<(Vec<u8>, Value)>) -> bool
    decreases s, 1int,
{
    if s.len() == 0 {
        true
    } else {
        wf_value(s[0].1) && wf_pairs(s.skip(1))
    }
}

/// The base-ten rendering of `n` is nonempty, all digits, has no leading
/// zero unless it is just `0`, and reads back as `n`.
proof fn lemma_dec_digits_props(n: nat)
    ensures
        dec_digits(n).len() >= 1,
        forall|k: int| 0 <= k < dec_digits(n).len() ==> is_digit(#[trigger] dec_digits(n)[k]),
        n < 10 ==> dec_digits(n).len() == 1,
        n != 0 ==> dec_digits(n)[0] != 48,
        digits_val(dec_digits(n)) == n,
    decreases n,
{
    if n < 10 {
        let t = dec_digits(n);
        assert(t =~= seq![(48 + n) as u8]);
        assert(t.take(0) =~= Seq::<u8>::empty());
        assert(digits_val(t) == digits_val(t.take(0)) * 10 + (t[0] - 48) as nat);
    } else {
        lemma_dec_digits_props(n / 10);
        let p = dec_digits(n / 10);
        let t = dec_digits(n);
        assert(t == p.push((48 + n % 10) as u8));
        assert(t.take(t.len() - 1) =~= p);
        assert(t[0] == p[0]);
        assert(digits_val(t) == digits_val(p) * 10 + (t[t.len() - 1] - 48) as nat);
        assert(digits_val(t) == (n / 10) * 10 + n % 10);
    }
}

/// Scanning a run of number bytes ends exactly where the run does.
proof fn lemma_num_end_of_run(s: Seq<u8>, i: int, j: int)
    requires
        0 <= i <= j <= s.len(),
        forall|k: int| i <= k < j ==> is_num_byte(#[trigger] s[k]),
        j == s.len() || !is_num_byte(s[j]),
    ensures
        sp_num_end(s, i) == j,
    decreases j - i,
{
    if i < j {
        lemma_num_end_of_run(s, i + 1, j);
    }
}

/// Whitespace scanning does not move off a non-whitespace byte.
proof fn lemma_ws_stays(s: Seq<u8>, i: int)
    requires
        0 <= i,
        i == s.len() || !is_ws(s[i]),
    ensures
        sp_ws(s, i) == i,
        ws_from(s, i) == i,
{
}

/// Reading back a rendered hexadecimal digit gives its value.
proof fn lemma_hex_val_digit(x: int)
    requires
        0 <= x < 16,
    ensures
        spec_hex_val(hex_digit(x)) == Some(x),
{
}

/// One byte of a piece laid down inside `s`.
proof fn lemma_at(s: Seq<u8>, i: int, p: Seq<u8>, k: int)
    requires
        0 <= i,
        0 <= k < p.len(),
        i + p.len() <= s.len(),
        s.subrange(i, i + p.len()) == p,
    ensures
        s[i + k] == p[k],
{
    assert(s.subrange(i, i + p.len())[k] == s[i + k]);
}

/// The escaped rendering of string contents, closed by a quote, reads
/// back as exactly those contents.
proof fn lemma_str_content_rt(b: Seq<u8>, s: Seq<u8>, i: int)
    requires
        0 <= i,
        i + esc(b).len() + 1 <= s.len(),
        s.subrange(i, i + esc(b).len() + 1) == esc(b) + seq![34u8],
    ensures
        sp_str_content(s, i) == Some((b, i + esc(b).len() + 1)),
    decreases b.len(),
{
    let e = esc(b);
    let pe = e + seq![34u8];
    if b.len() == 0 {
        assert(e =~= Seq::<u8>::empty());
        lemma_at(s, i, pe, 0);
        assert(s[i] == 34);
    } else {
        let b0 = b[0];
        let rest = b.skip(1);
        let eb = esc_byte(b0);
        let er = esc(rest);
        assert(e == eb + er);
        let i2 = i + eb.len();
        // the tail of the piece is the rendering of the rest, closed by
        // the same quote
        assert forall|k: int| 0 <= k < er.len() + 1 implies #[trigger] s.subrange(
            i2,
            i2 + er.len() + 1,
        )[k] == (er + seq![34u8])[k] by {
            lemma_at(s, i, pe, eb.len() + k);
            assert(pe[eb.len() + k] == (er + seq![34u8])[k]);
            assert(s.subrange(i2, i2 + er.len() + 1)[k] == s[i2 + k]);
            assert(i2 + k == i + (eb.len() + k));
        }
        assert(s.subrange(i2, i2 + er.len() + 1) =~= er + seq![34u8]);
        lemma_str_content_rt(rest, s, i2);
        assert(seq![b0] + rest =~= b);
        if b0 == 34 {
            assert(eb =~= seq![92u8, 34u8]);
            lemma_at(s, i, pe, 0);
            lemma_at(s, i, pe, 1);
            assert(s[i] == 92 && s[i + 1] == 34);
        } else if b0 == 92 {
            assert(eb =~= seq![92u8, 92u8]);
            lemma_at(s, i, pe, 0);
            lemma_at(s, i, pe, 1);
            assert(s[i] == 92 && s[i + 1] == 92);
        } else if b0 < 32 {
            assert(eb =~= seq![
                92u8,
                117u8,
                48u8,
                48u8,
                hex_digit(b0 as int / 16),
                hex_digit(b0 as int % 16),
            ]);
            lemma_at(s, i, pe, 0);
            lemma_at(s, i, pe, 1);
            lemma_at(s, i, pe, 2);
            lemma_at(s, i, pe, 3);
            lemma_at(s, i, pe, 4);
            lemma_at(s, i, pe, 5);
            assert(s[i] == 92 && s[i + 1] == 117 && s[i + 2] == 48 && s[i + 3] == 48);
            assert(s[i + 4] == hex_digit(b0 as int / 16) && s[i + 5] == hex_digit(
                b0 as int % 16,
            ));
            lemma_hex_val_digit(0);
            lemma_hex_val_digit(b0 as int / 16);
            lemma_hex_val_digit(b0 as int % 16);
            let cp = 0 * 4096 + 0 * 256 + (b0 as int / 16) * 16 + (b0 as int % 16);
            assert(cp == b0 as int);
            assert(utf8_enc(cp) =~= seq![b0]);
            assert(utf8_enc(cp) + rest =~= b);
        } else {
            assert(eb =~= seq![b0]);
            lemma_at(s, i, pe, 0);
            assert(s[i] == b0);
        }
    }
}

/// A rendered value is nonempty and never opens with whitespace.
proof fn lemma_ser_first(v: Value)
    requires
        wf_value(v),
    ensures
        ser_value(v).len() >= 1,
        !is_ws(ser_value(v)[0]),
    decreases v,
{
    match v {
        Value::Int(u) => {
            lemma_dec_digits_props(u as nat);
            assert(is_digit(dec_digits(u as nat)[0]));
        },
        Value::Num(raw) => {
            assert(ser_value(v)[0] == raw@[0]);
        },
        _ => {},
    }
}

/// A run of digits laid down in `s` and closed off by a non-number byte
/// (or the end) is scanned as one number token.
proof fn lemma_digit_run_token(d: Seq<u8>, s: Seq<u8>, i: int)
    requires
        0 <= i,
        i + d.len() <= s.len(),
        s.subrange(i, i + d.len()) == d,
        forall|k: int| 0 <= k < d.len() ==> is_digit(#[trigger] d[k]),
        i + d.len() == s.len() || !is_num_byte(s[i + d.len()]),
    ensures
        sp_num_end(s, i) == i + d.len(),
        s.subrange(i, sp_num_end(s, i)) == d,
{
    assert forall|k: int| i <= k < i + d.len() implies is_num_byte(#[trigger] s[k]) by {
        lemma_at(s, i, d, k - i);
        assert(s[i + (k - i)] == d[k - i]);
    }
    lemma_num_end_of_run(s, i, i + d.len());
}

/// The canonical digits of `u`, closed off by a non-number byte, read
/// back as `Int(u)`.
proof fn lemma_int_rt(u: u64, s: Seq<u8>, i: int)
    requires
        0 <= i,
        i + dec_digits(u as nat).len() <= s.len(),
        s.subrange(i, i + dec_digits(u as nat).len()) == dec_digits(u as nat),
        i + dec_digits(u as nat).len() == s.len() || !is_num_byte(
            s[i + dec_digits(u as nat).len()],
        ),
    ensures
        sp_value(s, i) == Some((JsonTree::Int(u), i + dec_digits(u as nat).len())),
{
    let d = dec_digits(u as nat);
    lemma_dec_digits_props(u as nat);
    lemma_at(s, i, d, 0);
    assert(s[i] == d[0]);
    assert(is_digit(s[i]));
    lemma_digit_run_token(d, s, i);
    assert(canonical_u64(d));
    assert(sp_number(s, i) == (JsonTree::Int(u), i + d.len()));
}

/// A kept-raw number literal, closed off by a non-number byte, reads back
/// as itself.
proof fn lemma_num_rt(raw: Seq<u8>, s: Seq<u8>, i: int)
    requires
        num_shape(raw),
        !canonical_u64(raw),
        0 <= i,
        i + raw.len() <= s.len(),
        s.subrange(i, i + raw.len()) == raw,
        i + raw.len() == s.len() || !is_num_byte(s[i + raw.len()]),
    ensures
        sp_value(s, i) == Some((JsonTree::Num(raw), i + raw.len())),
{
    lemma_at(s, i, raw, 0);
    assert(s[i] == raw[0]);
    assert forall|k: int| i <= k < i + raw.len() implies is_num_byte(#[trigger] s[k]) by {
        lemma_at(s, i, raw, k - i);
        assert(s[i + (k - i)] == raw[k - i]);
    }
    lemma_num_end_of_run(s, i, i + raw.len());
    assert(s.subrange(i, sp_num_end(s, i)) == raw);
    assert(sp_number(s, i) == (JsonTree::Num(raw), i + raw.len()));
    assert(is_digit(s[i]) || s[i] == 45);
    assert(s[i] != 110 && s[i] != 116 && s[i] != 102 && s[i] != 34 && s[i] != 91 && s[i]
        != 123);
}

/// A piece laid down inside `s` lays its sub-pieces down too.
proof fn lemma_sub_piece(s: Seq<u8>, i: int, p: Seq<u8>, a: int, b: int)
    requires
        0 <= i,
        i + p.len() <= s.len(),
        s.subrange(i, i + p.len()) == p,
        0 <= a <= b <= p.len(),
    ensures
        s.subrange(i + a, i + b) == p.subrange(a, b),
{
    assert forall|k: int| 0 <= k < b - a implies #[trigger] s.subrange(i + a, i + b)[k]
        == p.subrange(a, b)[k] by {
        lemma_at(s, i, p, a + k);
        assert(s.subrange(i + a, i + b)[k] == s[(i + a) + k]);
        assert((i + a) + k == i + (a + k));
    }
    assert(s.subrange(i + a, i + b) =~= p.subrange(a, b));
}

/// A rendered value laid down in `s` and closed off by a non-number byte
/// reads back as exactly that value.
#[verifier::rlimit(100)]
#[verifier::spinoff_prover]
proof fn lemma_value_rt(v: Value, s: Seq<u8>, i: int)
    requires
        wf_value(v),
        0 <= i,
        i + ser_value(v).len() <= s.len(),
        s.subrange(i, i + ser_value(v).len() as int) == ser_value(v),
        i + ser_value(v).len() == s.len() || !is_num_byte(s[i + ser_value(v).len()]),
    ensures
        sp_value(s, i) == Some((tree_of(v), i + ser_value(v).len())),
    decreases v, 0int,
{
    let p = ser_value(v);
    match v {
        Value::Null => {
            lemma_at(s, i, p, 0);
            lemma_at(s, i, p, 1);
            lemma_at(s, i, p, 2);
            lemma_at(s, i, p, 3);
            assert(s[i] == 110 && s[i + 1] == 117 && s[i + 2] == 108 && s[i + 3] == 108);
        },
        Value::Bool(bv) => {
            lemma_at(s, i, p, 0);
            lemma_at(s, i, p, 1);
            lemma_at(s, i, p, 2);
            lemma_at(s, i, p, 3);
            if !bv {
                lemma_at(s, i, p, 4);
            }
        },
        Value::Int(u) => {
            lemma_int_rt(u, s, i);
        },
        Value::Num(raw) => {
            lemma_num_rt(raw@, s, i);
        },
        Value::Str(bytes) => {
            lemma_at(s, i, p, 0);
            assert(s[i] == 34);
            lemma_sub_piece(s, i, p, 1, p.len() as int);
            assert(p.subrange(1, p.len() as int) =~= esc(bytes@) + seq![34u8]);
            lemma_str_content_rt(bytes@, s, i + 1);
        },
        Value::Arr(elems) => {
            let es = ser_elems(elems@);
            assert(p == seq![91u8] + es + seq![93u8]);
            lemma_at(s, i, p, 0);
            assert(s[i] == 91);
            if elems@.len() == 0 {
                assert(es =~= Seq::<u8>::empty());
                lemma_at(s, i, p, 1);
                assert(s[i + 1] == 93);
                lemma_ws_stays(s, i + 1);
                assert(trees_of(elems@) =~= Seq::<JsonTree>::empty());
            } else {
                let e0 = elems@[0];
                let p0 = ser_value(e0);
                let rest = elems@.skip(1);
                let pr = ser_elems_rest(rest);
                assert(es == p0 + pr);
                assert(wf_value(e0) && wf_elems(rest));
                lemma_ser_first(e0);
                lemma_sub_piece(s, i, p, 1, 1 + p0.len() as int);
                assert(p.subrange(1, 1 + p0.len() as int) =~= p0);
                lemma_at(s, i + 1, p0, 0);
                assert(s[i + 1] == p0[0]);
                lemma_ws_stays(s, i + 1);
                let after0 = i + 1 + p0.len();
                lemma_at(s, i, p, 1 + p0.len() as int);
                if rest.len() == 0 {
                    assert(pr =~= Seq::<u8>::empty());
                    assert(p[1 + p0.len() as int] == 93);
                    assert(s[after0] == 93);
                } else {
                    assert(pr[0] == 44);
                    assert(p[1 + p0.len() as int] == 44);
                    assert(s[after0] == 44);
                }
                lemma_value_rt(e0, s, i + 1);
                assert(step_pos(after0, i + 1, s.len() as int) == after0);
                lemma_sub_piece(s, i, p, 1 + p0.len() as int, p.len() as int);
                assert(p.subrange(1 + p0.len() as int, p.len() as int) =~= pr + seq![93u8]);
                lemma_arr_rest_rt(rest, s, after0);
                assert(trees_of(elems@) =~= seq![tree_of(e0)] + trees_of(rest));
            }
        },
        Value::Obj(pairs) => {
            let es = ser_pairs(pairs@);
            assert(p == seq![123u8] + es + seq![125u8]);
            lemma_at(s, i, p, 0);
            assert(s[i] == 123);
            if pairs@.len() == 0 {
                assert(es =~= Seq::<u8>::empty());
                lemma_at(s, i, p, 1);
                assert(s[i + 1] == 125);
                lemma_ws_stays(s, i + 1);
                assert(keyed_trees_of(pairs@) =~= Seq::<(Seq<u8>, JsonTree)>::empty());
            } else {
                let m0 = pairs@[0];
                let p0 = ser_pair(m0);
                let rest = pairs@.skip(1);
                let pr = ser_pairs_rest(rest);
                assert(es == p0 + pr);
                assert(wf_value(m0.1) && wf_pairs(rest));
                lemma_sub_piece(s, i, p, 1, 1 + p0.len() as int);
                assert(p.subrange(1, 1 + p0.len() as int) =~= p0);
                lemma_at(s, i + 1, p0, 0);
                assert(s[i + 1] == 34);
                lemma_ws_stays(s, i + 1);
                let after0 = i + 1 + p0.len();
                lemma_at(s, i, p, 1 + p0.len() as int);
                if rest.len() == 0 {
                    assert(pr =~= Seq::<u8>::empty());
                    assert(p[1 + p0.len() as int] == 125);
                    assert(s[after0] == 125);
                } else {
                    assert(pr[0] == 44);
                    assert(p[1 + p0.len() as int] == 44);
                    assert(s[after0] == 44);
                }
                lemma_member_rt(m0, s, i + 1);
                assert(step_pos(after0, i + 1, s.len() as int) == after0);
                lemma_sub_piece(s, i, p, 1 + p0.len() as int, p.len() as int);
                assert(p.subrange(1 + p0.len() as int, p.len() as int) =~= pr + seq![125u8]);
                lemma_obj_rest_rt(rest, s, after0);
                assert(keyed_trees_of(pairs@) =~= seq![(m0.0@, tree_of(m0.1))]
                    + keyed_trees_of(rest));
            }
        },
    }
}

/// A rendered member laid down in `s` reads back as its key and value.
proof fn lemma_member_rt(m: (Vec<u8>, Value), s: Seq<u8>, i: int)
    requires
        wf_value(m.1),
        0 <= i,
        i + ser_pair(m).len() <= s.len(),
        s.subrange(i, i + ser_pair(m).len() as int) == ser_pair(m),
        i + ser_pair(m).len() == s.len() || !is_num_byte(s[i + ser_pair(m).len()]),
    ensures
        sp_member(s, i) == Some(((m.0@, tree_of(m.1)), i + ser_pair(m).len())),
    decreases m, 1int,
{
    let p = ser_pair(m);
    let ek = esc(m.0@);
    let pv = ser_value(m.1);
    assert(p == seq![34u8] + ek + seq![34u8, 58u8] + pv);
    lemma_at(s, i, p, 0);
    assert(p[0] == 34);
    assert(s[i] == 34);
    // the key reads back: its rendering is closed by the quote of the
    // quote-colon pair
    lemma_sub_piece(s, i, p, 1, 1 + ek.len() as int + 1);
    assert(p.subrange(1, 1 + ek.len() as int + 1) =~= ek + seq![34u8]);
    lemma_str_content_rt(m.0@, s, i + 1);
    let k = i + 1 + ek.len() + 1;
    assert(step_pos(k, i + 1, s.len() as int) == k);
    lemma_at(s, i, p, k - i);
    assert(p[k - i] == 58);
    assert(s[k] == 58);
    lemma_ws_stays(s, k);
    lemma_ser_first(m.1);
    lemma_sub_piece(s, i, p, k - i + 1, p.len() as int);
    assert(p.subrange(k - i + 1, p.len() as int) =~= pv);
    lemma_at(s, k + 1, pv, 0);
    assert(s[k + 1] == pv[0]);
    lemma_ws_stays(s, k + 1);
    lemma_value_rt(m.1, s, k + 1);
}

/// The rendered rest of an array body, closed by its bracket, reads back
/// as the remaining elements.
proof fn lemma_arr_rest_rt(elems: Seq<Value>, s: Seq<u8>, pos: int)
    requires
        wf_elems(elems),
        0 <= pos,
        pos + ser_elems_rest(elems).len() + 1 <= s.len(),
        s.subrange(pos, pos + ser_elems_rest(elems).len() + 1) == ser_elems_rest(elems)
            + seq![93u8],
    ensures
        sp_arr_rest(s, pos) == Some((trees_of(elems), pos + ser_elems_rest(elems).len() + 1)),
    decreases elems, 1int,
{
    let pr = ser_elems_rest(elems);
    let piece = pr + seq![93u8];
    if elems.len() == 0 {
        assert(pr =~= Seq::<u8>::empty());
        lemma_at(s, pos, piece, 0);
        assert(s[pos] == 93);
        lemma_ws_stays(s, pos);
        assert(trees_of(elems) =~= Seq::<JsonTree>::empty());
    } else {
        let e0 = elems[0];
        let p0 = ser_value(e0);
        let rest = elems.skip(1);
        let pr2 = ser_elems_rest(rest);
        assert(pr == seq![44u8] + p0 + pr2);
        assert(wf_value(e0) && wf_elems(rest));
        lemma_at(s, pos, piece, 0);
        assert(piece[0] == 44);
        assert(s[pos] == 44);
        lemma_ws_stays(s, pos);
        lemma_ser_first(e0);
        lemma_sub_piece(s, pos, piece, 1, 1 + p0.len() as int);
        assert(piece.subrange(1, 1 + p0.len() as int) =~= p0);
        lemma_at(s, pos + 1, p0, 0);
        assert(s[pos + 1] == p0[0]);
        lemma_ws_stays(s, pos + 1);
        let after0 = pos + 1 + p0.len();
        lemma_at(s, pos, piece, 1 + p0.len() as int);
        if rest.len() == 0 {
            assert(pr2 =~= Seq::<u8>::empty());
            assert(piece[1 + p0.len() as int] == 93);
            assert(s[after0] == 93);
        } else {
            assert(pr2[0] == 44);
            assert(piece[1 + p0.len() as int] == 44);
            assert(s[after0] == 44);
        }
        lemma_value_rt(e0, s, pos + 1);
        assert(step_pos(after0, pos + 1, s.len() as int) == after0);
        lemma_sub_piece(s, pos, piece, 1 + p0.len() as int, piece.len() as int);
        assert(piece.subrange(1 + p0.len() as int, piece.len() as int) =~= pr2 + seq![93u8]);
        lemma_arr_rest_rt(rest, s, after0);
        assert(trees_of(elems) =~= seq![tree_of(e0)] + trees_of(rest));
    }
}

/// The rendered rest of an object body, closed by its brace, reads back
/// as the remaining members.
proof fn lemma_obj_rest_rt(pairs: Seq<(Vec<u8>, Value)>, s: Seq<u8>, pos: int)
    requires
        wf_pairs(pairs),
        0 <= pos,
        pos + ser_pairs_rest(pairs).len() + 1 <= s.len(),
        s.subrange(pos, pos + ser_pairs_rest(pairs).len() + 1) == ser_pairs_rest(pairs)
            + seq![125u8],
    ensures
        sp_obj_rest(s, pos) == Some(
            (keyed_trees_of(pairs), pos + ser_pairs_rest(pairs).len() + 1),
        ),
    decreases pairs, 2int,
{
    let pr = ser_pairs_rest(pairs);
    let piece = pr + seq![125u8];
    if pairs.len() == 0 {
        assert(pr =~= Seq::<u8>::empty());
        lemma_at(s, pos, piece, 0);
        assert(s[pos] == 125);
        lemma_ws_stays(s, pos);
        assert(keyed_trees_of(pairs) =~= Seq::<(Seq<u8>, JsonTree)>::empty());
    } else {
        let m0 = pairs[0];
        let p0 = ser_pair(m0);
        let rest = pairs.skip(1);
        let pr2 = ser_pairs_rest(rest);
        assert(pr == seq![44u8] + p0 + pr2);
        assert(wf_value(m0.1) && wf_pairs(rest));
        lemma_at(s, pos, piece, 0);
        assert(piece[0] == 44);
        assert(s[pos] == 44);
        lemma_ws_stays(s, pos);
        lemma_sub_piece(s, pos, piece, 1, 1 + p0.len() as int);
        assert(piece.subrange(1, 1 + p0.len() as int) =~= p0);
        lemma_at(s, pos + 1, p0, 0);
        assert(p0[0] == 34);
        assert(s[pos + 1] == 34);
        lemma_ws_stays(s, pos + 1);
        let after0 = pos + 1 + p0.len();
        lemma_at(s, pos, piece, 1 + p0.len() as int);
        if rest.len() == 0 {
            assert(pr2 =~= Seq::<u8>::empty());
            assert(piece[1 + p0.len() as int] == 125);
            assert(s[after0] == 125);
        } else {
            assert(pr2[0] == 44);
            assert(piece[1 + p0.len() as int] == 44);
            assert(s[after0] == 44);
        }
        lemma_member_rt(m0, s, pos + 1);
        assert(step_pos(after0, pos + 1, s.len() as int) == after0);
        lemma_sub_piece(s, pos, piece, 1 + p0.len() as int, piece.len() as int);
        assert(piece.subrange(1 + p0.len() as int, piece.len() as int) =~= pr2 + seq![125u8]);
        lemma_obj_rest_rt(rest, s, after0);
        assert(keyed_trees_of(pairs) =~= seq![(m0.0@, tree_of(m0.1))] + keyed_trees_of(rest));
    }
}

/// The codec round trip: the canonical rendering of a well-formed value
/// reads back as exactly that value.
pub proof fn lemma_round_trip(v: Value)
    requires
        wf_value(v),
    ensures
        sp_text(ser_value(v)) == Some(tree_of(v)),
{
    let s = ser_value(v);
    lemma_ser_first(v);
    assert(s.subrange(0, s.len() as int) =~= s);
    lemma_ws_stays(s, 0);
    lemma_value_rt(v, s, 0);
    lemma_ws_stays(s, s.len() as int);
}

} // verus!
