//! A small JSON codec: a value tree, a canonical emitter and a tolerant
//! parser, both pinned to spec-level mirrors so that reading back what was
//! written can be proved exact. The SRF, repository and cache formats are
//! all spelled through this tree.
//!
//! Strings are modelled as their unescaped content bytes. The emitter
//! handles printable ASCII content (which is all the formats here ever
//! write); the parser additionally passes raw non-ASCII bytes through.
//!
//! The value grammar is the subset these formats use: numbers are
//! unsigned integers (no sign, fraction or exponent), and strings accept
//! the short escapes but not `\u` escapes.

use vstd::prelude::*;
use crate::text;

verus! {

/// A JSON value in mathematical form; strings are unescaped content bytes.
pub ghost enum SpecJson {
    Null,
    Bool(bool),
    Num(u64),
    Str(Seq<u8>),
    Arr(Seq<SpecJson>),
    Obj(Seq<(Seq<u8>, SpecJson)>),
}

/// A JSON value. Numbers cover the unsigned integers the formats here use.
#[derive(Debug)]
pub enum Json {
    Null,
    Bool(bool),
    Num(u64),
    Str(String),
    Arr(Vec<Json>),
    Obj(Vec<(String, Json)>),
}

/// Printable ASCII content: what the emitter accepts in strings.
pub open spec fn str_wf(b: Seq<u8>) -> bool {
    forall|i: int| 0 <= i < b.len() ==> 32 <= #[trigger] b[i] <= 126
}

/// The same, over characters.
pub open spec fn chars_wf(s: Seq<char>) -> bool {
    forall|i: int| 0 <= i < s.len() ==> ' ' <= #[trigger] s[i] <= '~'
}

/// Every string in the tree is printable ASCII.
pub open spec fn spec_json_wf(j: SpecJson) -> bool
    decreases j,
{
    match j {
        SpecJson::Null => true,
        SpecJson::Bool(_) => true,
        SpecJson::Num(_) => true,
        SpecJson::Str(s) => str_wf(s),
        SpecJson::Arr(l) => forall|i: int| 0 <= i < l.len() ==> spec_json_wf(#[trigger] l[i]),
        SpecJson::Obj(ms) => forall|i: int|
            0 <= i < ms.len() ==> str_wf((#[trigger] ms[i]).0) && spec_json_wf(ms[i].1),
    }
}

/// Every string in the executable tree is printable ASCII.
pub open spec fn json_wf(j: Json) -> bool
    decreases j,
{
    match j {
        Json::Null => true,
        Json::Bool(_) => true,
        Json::Num(_) => true,
        Json::Str(s) => chars_wf(s@),
        Json::Arr(v) => forall|i: int| 0 <= i < v@.len() ==> json_wf(#[trigger] v@[i]),
        Json::Obj(ms) => forall|i: int|
            0 <= i < ms@.len() ==> chars_wf((#[trigger] ms@[i]).0@) && json_wf(ms@[i].1),
    }
}

/// The mathematical form of an executable tree; faithful on well-formed
/// (ASCII) trees.
pub open spec fn view_json(j: Json) -> SpecJson
    decreases j, 0int,
{
    match j {
        Json::Null => SpecJson::Null,
        Json::Bool(b) => SpecJson::Bool(b),
        Json::Num(n) => SpecJson::Num(n),
        Json::Str(s) => SpecJson::Str(text::bytes_of_chars(s@)),
        Json::Arr(v) => SpecJson::Arr(view_elems(v@, 0)),
        Json::Obj(ms) => SpecJson::Obj(view_members(ms@, 0)),
    }
}

/// The mathematical form of the elements from index `i` on.
pub open spec fn view_elems(v: Seq<Json>, i: int) -> Seq<SpecJson>
    decreases v, v.len() - i, 1int,
{
    if i < 0 || i >= v.len() {
        Seq::empty()
    } else {
        seq![view_json(v[i])] + view_elems(v, i + 1)
    }
}

/// The mathematical form of the members from index `i` on.
pub open spec fn view_members(ms: Seq<(String, Json)>, i: int) -> Seq<(Seq<u8>, SpecJson)>
    decreases ms, ms.len() - i, 1int,
{
    if i < 0 || i >= ms.len() {
        Seq::empty()
    } else {
        seq![(text::bytes_of_chars(ms[i].0@), view_json(ms[i].1))] + view_members(ms, i + 1)
    }
}

pub proof fn lemma_view_elems_index(v: Seq<Json>, i: int)
    requires
        0 <= i <= v.len(),
    ensures
        view_elems(v, i).len() == v.len() - i,
        forall|k: int| i <= k < v.len() ==> view_elems(v, i)[k - i] == view_json(#[trigger] v[k]),
    decreases v.len() - i,
{
    if i < v.len() {
        lemma_view_elems_index(v, i + 1);
    }
}

pub proof fn lemma_view_members_index(ms: Seq<(String, Json)>, i: int)
    requires
        0 <= i <= ms.len(),
    ensures
        view_members(ms, i).len() == ms.len() - i,
        forall|k: int|
            i <= k < ms.len() ==> view_members(ms, i)[k - i] == (
            text::bytes_of_chars((#[trigger] ms[k]).0@),
            view_json(ms[k].1),
            ),
    decreases ms.len() - i,
{
    if i < ms.len() {
        lemma_view_members_index(ms, i + 1);
    }
}

pub proof fn lemma_json_wf_view(j: Json)
    requires
        json_wf(j),
    ensures
        spec_json_wf(view_json(j)),
    decreases j,
{
    match j {
        Json::Str(s) => {
            assert forall|i: int| 0 <= i < s@.len() implies 32 <= #[trigger] text::bytes_of_chars(
                s@,
            )[i] <= 126 by {
                assert(' ' <= s@[i] <= '~');
            }
        },
        Json::Arr(v) => {
            let l = view_elems(v@, 0);
            lemma_view_elems_index(v@, 0);
            assert forall|i: int| 0 <= i < l.len() implies spec_json_wf(#[trigger] l[i]) by {
                assert(l[i] == view_json(v@[i]));
                assert(json_wf(v@[i]));
                lemma_json_wf_view(v@[i]);
            }
        },
        Json::Obj(ms) => {
            let l = view_members(ms@, 0);
            lemma_view_members_index(ms@, 0);
            assert forall|i: int|
                0 <= i < l.len() implies str_wf((#[trigger] l[i]).0) && spec_json_wf(l[i].1) by {
                assert(l[i] == (text::bytes_of_chars(ms@[i].0@), view_json(ms@[i].1)));
                assert(chars_wf(ms@[i].0@) && json_wf(ms@[i].1));
                lemma_json_wf_view(ms@[i].1);
                let k = ms@[i].0@;
                assert forall|q: int| 0 <= q < k.len() implies 32 <= #[trigger] text::bytes_of_chars(
                    k,
                )[q] <= 126 by {
                    assert(' ' <= k[q] <= '~');
                }
            }
        },
        _ => {},
    }
}

// ---------------------------------------------------------------------------
// Emitting
// ---------------------------------------------------------------------------

/// String content with `"` and `\` escaped.
pub open spec fn spec_escape(b: Seq<u8>) -> Seq<u8>
    decreases b.len(),
{
    if b.len() == 0 {
        Seq::empty()
    } else {
        let head = if b[0] == 34 {
            seq![92u8, 34u8]
        } else if b[0] == 92 {
            seq![92u8, 92u8]
        } else {
            seq![b[0]]
        };
        head + spec_escape(b.drop_first())
    }
}

pub proof fn lemma_escape_append(a: Seq<u8>, b: Seq<u8>)
    ensures
        spec_escape(a + b) =~= spec_escape(a) + spec_escape(b),
    decreases a.len(),
{
    if a.len() == 0 {
        assert(a + b =~= b);
    } else {
        assert((a + b).drop_first() =~= a.drop_first() + b);
        lemma_escape_append(a.drop_first(), b);
    }
}

/// The canonical spelling: no whitespace, object fields in given order,
/// only `"` and `\` escaped.
pub open spec fn spec_emit(j: SpecJson) -> Seq<u8>
    decreases j, 0int, 0int,
{
    match j {
        SpecJson::Null => seq![110u8, 117u8, 108u8, 108u8],
        SpecJson::Bool(b) => if b {
            seq![116u8, 114u8, 117u8, 101u8]
        } else {
            seq![102u8, 97u8, 108u8, 115u8, 101u8]
        },
        SpecJson::Num(n) => text::spec_u64_digits(n as nat),
        SpecJson::Str(s) => seq![34u8] + spec_escape(s) + seq![34u8],
        SpecJson::Arr(l) => seq![91u8] + spec_emit_elems(l, 0) + seq![93u8],
        SpecJson::Obj(ms) => seq![123u8] + spec_emit_members(ms, 0) + seq![125u8],
    }
}

/// Array elements from index `i` on, comma-separated.
pub open spec fn spec_emit_elems(l: Seq<SpecJson>, i: int) -> Seq<u8>
    decreases l, l.len() - i, 1int,
{
    if i < 0 || i >= l.len() {
        Seq::empty()
    } else {
        spec_emit(l[i]) + if i + 1 < l.len() {
            seq![44u8] + spec_emit_elems(l, i + 1)
        } else {
            Seq::<u8>::empty()
        }
    }
}

/// Object members from index `i` on, comma-separated.
pub open spec fn spec_emit_members(ms: Seq<(Seq<u8>, SpecJson)>, i: int) -> Seq<u8>
    decreases ms, ms.len() - i, 1int,
{
    if i < 0 || i >= ms.len() {
        Seq::empty()
    } else {
        seq![34u8] + spec_escape(ms[i].0) + seq![34u8, 58u8] + spec_emit(ms[i].1) + if i + 1
            < ms.len() {
            seq![44u8] + spec_emit_members(ms, i + 1)
        } else {
            Seq::<u8>::empty()
        }
    }
}

/// Escapes string content bytes.
fn escape_bytes(b: &[u8]) -> (r: Vec<u8>)
    ensures
        r@ == spec_escape(b@),
{
    let mut r: Vec<u8> = Vec::new();
    let mut i: usize = 0;
    while i < b.len()
        invariant
            0 <= i <= b@.len(),
            r@ == spec_escape(b@.take(i as int)),
        decreases b@.len() - i,
    {
        let c = b[i];
        if c == 34 {
            r.push(92);
            r.push(34);
        } else if c == 92 {
            r.push(92);
            r.push(92);
        } else {
            r.push(c);
        }
        proof {
            lemma_escape_append(b@.take(i as int), seq![b@[i as int]]);
            assert(b@.take(i as int + 1) =~= b@.take(i as int) + seq![b@[i as int]]);
            assert(seq![b@[i as int]].drop_first() =~= Seq::<u8>::empty());
            let x = b@[i as int];
            let head: Seq<u8> = if x == 34 {
                seq![92u8, 34u8]
            } else if x == 92 {
                seq![92u8, 92u8]
            } else {
                seq![x]
            };
            assert(seq![x].len() == 1);
            assert(seq![x][0] == x);
            assert(spec_escape(Seq::<u8>::empty()) =~= Seq::<u8>::empty());
            assert(head + Seq::<u8>::empty() =~= head);
            assert(spec_escape(seq![x]) =~= head);
            assert(r@ =~= spec_escape(b@.take(i as int + 1)));
        }
        i = i + 1;
    }
    proof {
        assert(b@.take(i as int) =~= b@);
    }
    r
}

/// Writes the canonical spelling of `j` after `out`.
pub fn emit_json(j: &Json, out: &mut Vec<u8>)
    requires
        json_wf(*j),
    ensures
        final(out)@ == old(out)@ + spec_emit(view_json(*j)),
    decreases *j, 0int,
{
    match j {
        Json::Null => {
            out.push(110);
            out.push(117);
            out.push(108);
            out.push(108);
            proof {
                assert(out@ =~= old(out)@ + spec_emit(view_json(*j)));
            }
        },
        Json::Bool(b) => {
            if *b {
                out.push(116);
                out.push(114);
                out.push(117);
                out.push(101);
            } else {
                out.push(102);
                out.push(97);
                out.push(108);
                out.push(115);
                out.push(101);
            }
            proof {
                assert(out@ =~= old(out)@ + spec_emit(view_json(*j)));
            }
        },
        Json::Num(n) => {
            let mut d = text::u64_to_dec(*n);
            out.append(&mut d);
        },
        Json::Str(s) => {
            proof {
                lemma_chars_wf_ascii(s@);
            }
            let bs = text::str_bytes(s.as_str());
            let mut esc = escape_bytes(bs.as_slice());
            out.push(34);
            out.append(&mut esc);
            out.push(34);
            proof {
                assert(out@ =~= old(out)@ + spec_emit(view_json(*j)));
            }
        },
        Json::Arr(v) => {
            out.push(91);
            emit_elems(v, 0, out);
            out.push(93);
            proof {
                assert(out@ =~= old(out)@ + spec_emit(view_json(*j)));
            }
        },
        Json::Obj(ms) => {
            out.push(123);
            emit_members(ms, 0, out);
            out.push(125);
            proof {
                assert(out@ =~= old(out)@ + spec_emit(view_json(*j)));
            }
        },
    }
}

pub proof fn lemma_chars_wf_ascii(s: Seq<char>)
    requires
        chars_wf(s),
    ensures
        vstd::utf8::is_ascii_chars(s),
{
    assert forall|i: int| 0 <= i < s.len() implies '\0' <= #[trigger] s[i] <= '\u{7f}' by {
        assert(' ' <= s[i] <= '~');
    }
}

/// Writes the elements of `v` from index `i` on, comma-separated.
fn emit_elems(v: &Vec<Json>, i: usize, out: &mut Vec<u8>)
    requires
        forall|k: int| 0 <= k < v@.len() ==> json_wf(#[trigger] v@[k]),
        i <= v@.len(),
    ensures
        final(out)@ == old(out)@ + spec_emit_elems(view_elems(v@, 0), i as int),
    decreases v@, v@.len() - i,
{
    let ghost l = view_elems(v@, 0);
    proof {
        lemma_view_elems_index(v@, 0);
    }
    if i < v.len() {
        emit_json(&v[i], out);
        if i + 1 < v.len() {
            out.push(44);
            emit_elems(v, i + 1, out);
        }
        proof {
            assert(l[i as int] == view_json(v@[i as int]));
            assert(out@ =~= old(out)@ + spec_emit_elems(l, i as int));
        }
    }
}

/// Writes the members of `ms` from index `i` on, comma-separated.
fn emit_members(ms: &Vec<(String, Json)>, i: usize, out: &mut Vec<u8>)
    requires
        forall|k: int|
            0 <= k < ms@.len() ==> chars_wf((#[trigger] ms@[k]).0@) && json_wf(ms@[k].1),
        i <= ms@.len(),
    ensures
        final(out)@ == old(out)@ + spec_emit_members(view_members(ms@, 0), i as int),
    decreases ms@, ms@.len() - i,
{
    let ghost l = view_members(ms@, 0);
    proof {
        lemma_view_members_index(ms@, 0);
    }
    if i < ms.len() {
        let pair = &ms[i];
        proof {
            lemma_chars_wf_ascii(pair.0@);
        }
        let kb = text::str_bytes(pair.0.as_str());
        let mut esc = escape_bytes(kb.as_slice());
        out.push(34);
        out.append(&mut esc);
        out.push(34);
        out.push(58);
        emit_json(&pair.1, out);
        if i + 1 < ms.len() {
            out.push(44);
            emit_members(ms, i + 1, out);
        }
        proof {
            assert(l[i as int] == (text::bytes_of_chars(ms@[i as int].0@), view_json(
                ms@[i as int].1,
            )));
            assert(out@ =~= old(out)@ + spec_emit_members(l, i as int));
        }
    }
}

// ---------------------------------------------------------------------------
// Parsing
// ---------------------------------------------------------------------------

/// JSON insignificant whitespace.
pub open spec fn is_ws(b: u8) -> bool {
    b == 32 || b == 9 || b == 10 || b == 13
}

/// First position at or after `pos` holding a non-whitespace byte.
pub open spec fn spec_skip_ws(s: Seq<u8>, pos: int) -> int
    decreases s.len() - pos,
{
    if pos < 0 || pos >= s.len() {
        pos
    } else if is_ws(s[pos]) {
        spec_skip_ws(s, pos + 1)
    } else {
        pos
    }
}

pub proof fn lemma_skip_ws_bounds(s: Seq<u8>, pos: int)
    requires
        0 <= pos <= s.len(),
    ensures
        pos <= spec_skip_ws(s, pos) <= s.len(),
    decreases s.len() - pos,
{
    if pos < s.len() && is_ws(s[pos]) {
        lemma_skip_ws_bounds(s, pos + 1);
    }
}

/// What a short escape stands for.
pub open spec fn unescape(b: u8) -> Option<u8> {
    if b == 34 {
        Some(34u8)
    } else if b == 92 {
        Some(92u8)
    } else if b == 47 {
        Some(47u8)
    } else if b == 110 {
        Some(10u8)
    } else if b == 116 {
        Some(9u8)
    } else if b == 114 {
        Some(13u8)
    } else if b == 98 {
        Some(8u8)
    } else if b == 102 {
        Some(12u8)
    } else {
        None
    }
}

/// String body from just after the opening quote to the closing quote:
/// the unescaped content bytes and the position after the closing quote.
/// Raw control bytes and unknown escapes are refused.
pub open spec fn spec_parse_str_body(s: Seq<u8>, pos: int) -> Option<(Seq<u8>, int)>
    decreases s.len() - pos,
{
    if pos < 0 || pos >= s.len() {
        None
    } else if s[pos] == 34 {
        Some((Seq::empty(), pos + 1))
    } else if s[pos] == 92 {
        if pos + 1 >= s.len() {
            None
        } else {
            match (unescape(s[pos + 1]), spec_parse_str_body(s, pos + 2)) {
                (Some(c), Some((rest, np))) => Some((seq![c] + rest, np)),
                _ => None,
            }
        }
    } else if s[pos] < 32 {
        None
    } else {
        match spec_parse_str_body(s, pos + 1) {
            Some((rest, np)) => Some((seq![s[pos]] + rest, np)),
            None => None,
        }
    }
}

pub proof fn lemma_str_body_bounds(s: Seq<u8>, pos: int)
    requires
        0 <= pos <= s.len(),
    ensures
        spec_parse_str_body(s, pos) matches Some((c, np)) ==> pos < np <= s.len(),
    decreases s.len() - pos,
{
    if 0 <= pos < s.len() {
        if s[pos] == 92 && pos + 1 < s.len() {
            lemma_str_body_bounds(s, pos + 2);
        } else if s[pos] != 34 {
            lemma_str_body_bounds(s, pos + 1);
        }
    }
}

/// End of the digit run beginning at `pos`.
pub open spec fn spec_scan_digits(s: Seq<u8>, pos: int) -> int
    decreases s.len() - pos,
{
    if pos < 0 || pos >= s.len() {
        pos
    } else if text::is_dec_digit(s[pos]) {
        spec_scan_digits(s, pos + 1)
    } else {
        pos
    }
}

pub proof fn lemma_scan_digits_bounds(s: Seq<u8>, pos: int)
    requires
        0 <= pos <= s.len(),
    ensures
        pos <= spec_scan_digits(s, pos) <= s.len(),
    decreases s.len() - pos,
{
    if pos < s.len() && text::is_dec_digit(s[pos]) {
        lemma_scan_digits_bounds(s, pos + 1);
    }
}

/// A number: the digit run read as a `u64`; `None` on overflow.
pub open spec fn spec_parse_num(s: Seq<u8>, pos: int) -> Option<(SpecJson, int)> {
    let end = spec_scan_digits(s, pos);
    if end <= pos {
        None
    } else {
        match text::spec_parse_u64(s.subrange(pos, end)) {
            Some(v) => Some((SpecJson::Num(v), end)),
            None => None,
        }
    }
}

/// One JSON value starting exactly at `pos` (no leading whitespace).
pub open spec fn spec_parse_value(s: Seq<u8>, pos: int) -> Option<(SpecJson, int)>
    decreases s.len() - pos, 0int,
{
    if pos < 0 || pos >= s.len() {
        None
    } else {
        let c = s[pos];
        if c == 110 {
            if pos + 4 <= s.len() && s.subrange(pos, pos + 4) == seq![110u8, 117u8, 108u8, 108u8] {
                Some((SpecJson::Null, pos + 4))
            } else {
                None
            }
        } else if c == 116 {
            if pos + 4 <= s.len() && s.subrange(pos, pos + 4) == seq![116u8, 114u8, 117u8, 101u8] {
                Some((SpecJson::Bool(true), pos + 4))
            } else {
                None
            }
        } else if c == 102 {
            if pos + 5 <= s.len() && s.subrange(pos, pos + 5) == seq![
                102u8,
                97u8,
                108u8,
                115u8,
                101u8,
            ] {
                Some((SpecJson::Bool(false), pos + 5))
            } else {
                None
            }
        } else if c == 34 {
            match spec_parse_str_body(s, pos + 1) {
                Some((content, np)) => Some((SpecJson::Str(content), np)),
                None => None,
            }
        } else if text::is_dec_digit(c) {
            spec_parse_num(s, pos)
        } else if c == 91 {
            let p1 = spec_skip_ws(s, pos + 1);
            if !(pos < p1 <= s.len()) {
                None  // never reached: skipping moves forward; bounds the recursion
            } else if p1 < s.len() && s[p1] == 93 {
                Some((SpecJson::Arr(Seq::empty()), p1 + 1))
            } else {
                match spec_parse_elems(s, p1) {
                    Some((l, np)) => Some((SpecJson::Arr(l), np)),
                    None => None,
                }
            }
        } else if c == 123 {
            let p1 = spec_skip_ws(s, pos + 1);
            if !(pos < p1 <= s.len()) {
                None  // never reached
            } else if p1 < s.len() && s[p1] == 125 {
                Some((SpecJson::Obj(Seq::empty()), p1 + 1))
            } else {
                match spec_parse_members(s, p1) {
                    Some((ms, np)) => Some((SpecJson::Obj(ms), np)),
                    None => None,
                }
            }
        } else {
            None
        }
    }
}

/// Array elements from the first value at `pos` to the closing bracket.
pub open spec fn spec_parse_elems(s: Seq<u8>, pos: int) -> Option<(Seq<SpecJson>, int)>
    decreases s.len() - pos, 1int,
{
    if !(0 <= pos <= s.len()) {
        None
    } else {
        match spec_parse_value(s, pos) {
            None => None,
            Some((v, p1)) => {
                let p2 = spec_skip_ws(s, p1);
                if !(pos < p2 <= s.len()) {
                    None  // never reached: a value consumes at least one byte
                } else if p2 < s.len() && s[p2] == 44 {
                    let p3 = spec_skip_ws(s, p2 + 1);
                    if !(p2 < p3 <= s.len()) {
                        None  // never reached
                    } else {
                        match spec_parse_elems(s, p3) {
                            None => None,
                            Some((rest, np)) => Some((seq![v] + rest, np)),
                        }
                    }
                } else if p2 < s.len() && s[p2] == 93 {
                    Some((seq![v], p2 + 1))
                } else {
                    None
                }
            },
        }
    }
}

/// Object members from the first key at `pos` to the closing brace.
pub open spec fn spec_parse_members(s: Seq<u8>, pos: int) -> Option<
    (Seq<(Seq<u8>, SpecJson)>, int),
>
    decreases s.len() - pos, 1int,
{
    if !(0 <= pos < s.len()) {
        None
    } else if s[pos] != 34 {
        None
    } else {
        match spec_parse_str_body(s, pos + 1) {
            None => None,
            Some((k, p1)) => {
                let p2 = spec_skip_ws(s, p1);
                if !(pos < p2 <= s.len()) {
                    None  // never reached
                } else if p2 < s.len() && s[p2] == 58 {
                    let p3 = spec_skip_ws(s, p2 + 1);
                    if !(p2 < p3 <= s.len()) {
                        None  // never reached
                    } else {
                        match spec_parse_value(s, p3) {
                            None => None,
                            Some((v, p4)) => {
                                let p5 = spec_skip_ws(s, p4);
                                if !(p3 < p5 <= s.len()) {
                                    None  // never reached
                                } else if p5 < s.len() && s[p5] == 44 {
                                    let p6 = spec_skip_ws(s, p5 + 1);
                                    if !(p5 < p6 <= s.len()) {
                                        None  // never reached
                                    } else {
                                        match spec_parse_members(s, p6) {
                                            None => None,
                                            Some((rest, np)) => Some((seq![(k, v)] + rest, np)),
                                        }
                                    }
                                } else if p5 < s.len() && s[p5] == 125 {
                                    Some((seq![(k, v)], p5 + 1))
                                } else {
                                    None
                                }
                            },
                        }
                    }
                } else {
                    None
                }
            },
        }
    }
}

/// The whole input as one value: leading and trailing whitespace allowed,
/// nothing else after the value.
pub open spec fn spec_parse_json(s: Seq<u8>) -> Option<SpecJson> {
    let p = spec_skip_ws(s, 0);
    match spec_parse_value(s, p) {
        None => None,
        Some((v, q)) => {
            if spec_skip_ws(s, q) == s.len() {
                Some(v)
            } else {
                None
            }
        },
    }
}

/// The parsed tree against its mathematical form: numbers and booleans
/// exact; strings exact whenever their bytes are ASCII.
pub open spec fn json_matches(j: Json, sj: SpecJson) -> bool
    decreases j,
{
    match (j, sj) {
        (Json::Null, SpecJson::Null) => true,
        (Json::Bool(a), SpecJson::Bool(b)) => a == b,
        (Json::Num(a), SpecJson::Num(b)) => a == b,
        (Json::Str(s), SpecJson::Str(b)) => str_matches(s@, b),
        (Json::Arr(v), SpecJson::Arr(l)) => v@.len() == l.len() && (forall|i: int|
            0 <= i < v@.len() ==> json_matches(#[trigger] v@[i], l[i])),
        (Json::Obj(ms), SpecJson::Obj(sms)) => ms@.len() == sms.len() && (forall|i: int|
            0 <= i < ms@.len() ==> str_matches((#[trigger] ms@[i]).0@, sms[i].0) && json_matches(
                ms@[i].1,
                sms[i].1,
            )),
        _ => false,
    }
}

/// The parsed string against its content bytes.
pub open spec fn str_matches(s: Seq<char>, b: Seq<u8>) -> bool {
    &&& (text::seq_is_ascii(b) ==> s == text::ascii_chars_of(b))
    &&& (s.len() == 0 <==> b.len() == 0)
}

/// Skips insignificant whitespace.
fn skip_ws(input: &[u8], pos: &mut usize)
    requires
        *old(pos) <= input@.len(),
    ensures
        *final(pos) == spec_skip_ws(input@, *old(pos) as int),
        *old(pos) <= *final(pos) <= input@.len(),
{
    loop
        invariant
            *old(pos) <= *pos <= input@.len(),
            spec_skip_ws(input@, *old(pos) as int) == spec_skip_ws(input@, *pos as int),
        decreases input@.len() - *pos,
    {
        if *pos >= input.len() {
            return ;
        }
        let b = input[*pos];
        if b == 32 || b == 9 || b == 10 || b == 13 {
            *pos = *pos + 1;
        } else {
            return ;
        }
    }
}

pub open spec fn compose_bytes(prefix: Seq<u8>, o: Option<(Seq<u8>, int)>) -> Option<
    (Seq<u8>, int),
> {
    match o {
        None => None,
        Some((c, np)) => Some((prefix + c, np)),
    }
}

/// What a short escape stands for.
fn unescape_exec(b: u8) -> (r: Option<u8>)
    ensures
        r == unescape(b),
{
    if b == 34 {
        Some(34)
    } else if b == 92 {
        Some(92)
    } else if b == 47 {
        Some(47)
    } else if b == 110 {
        Some(10)
    } else if b == 116 {
        Some(9)
    } else if b == 114 {
        Some(13)
    } else if b == 98 {
        Some(8)
    } else if b == 102 {
        Some(12)
    } else {
        None
    }
}

/// Reads a string body from just after the opening quote.
fn parse_str_body(input: &[u8], pos: &mut usize) -> (r: Option<Vec<u8>>)
    requires
        *old(pos) <= input@.len(),
    ensures
        *final(pos) <= input@.len(),
        match r {
            Some(v) => spec_parse_str_body(input@, *old(pos) as int) matches Some((c, np)) && v@
                == c && *final(pos) == np,
            None => spec_parse_str_body(input@, *old(pos) as int) is None,
        },
{
    let ghost start = *old(pos) as int;
    let mut r: Vec<u8> = Vec::new();
    loop
        invariant
            start == *old(pos) as int,
            0 <= start <= *pos <= input@.len(),
            spec_parse_str_body(input@, start) == compose_bytes(
                r@,
                spec_parse_str_body(input@, *pos as int),
            ),
        decreases input@.len() - *pos,
    {
        proof {
            lemma_str_body_bounds(input@, *pos as int);
        }
        if *pos >= input.len() {
            return None;
        }
        let b = input[*pos];
        if b == 34 {
            *pos = *pos + 1;
            proof {
                assert(r@ + Seq::<u8>::empty() =~= r@);
            }
            return Some(r);
        }
        if b == 92 {
            if *pos + 1 >= input.len() {
                return None;
            }
            let e = input[*pos + 1];
            match unescape_exec(e) {
                None => {
                    return None;
                },
                Some(c) => {
                    let ghost p = *pos as int;
                    r.push(c);
                    *pos = *pos + 2;
                    proof {
                        let rest = spec_parse_str_body(input@, *pos as int);
                        if rest is Some {
                            assert(r@.drop_last() + (seq![c] + rest->Some_0.0) =~= r@
                                + rest->Some_0.0);
                        }
                    }
                },
            }
        } else if b < 32 {
            return None;
        } else {
            let ghost p = *pos as int;
            r.push(b);
            *pos = *pos + 1;
            proof {
                let rest = spec_parse_str_body(input@, *pos as int);
                if rest is Some {
                    assert(r@.drop_last() + (seq![b] + rest->Some_0.0) =~= r@ + rest->Some_0.0);
                }
            }
        }
    }
}

/// Finds the end of the digit run beginning at `pos`.
fn scan_digits(input: &[u8], pos: usize) -> (r: usize)
    requires
        pos <= input@.len(),
    ensures
        r == spec_scan_digits(input@, pos as int),
        pos <= r <= input@.len(),
{
    let mut i: usize = pos;
    loop
        invariant
            pos <= i <= input@.len(),
            spec_scan_digits(input@, pos as int) == spec_scan_digits(input@, i as int),
        decreases input@.len() - i,
    {
        if i >= input.len() {
            return i;
        }
        let b = input[i];
        if 48 <= b && b <= 57 {
            i = i + 1;
        } else {
            return i;
        }
    }
}

pub open spec fn compose_elems(prefix: Seq<SpecJson>, o: Option<(Seq<SpecJson>, int)>) -> Option<
    (Seq<SpecJson>, int),
> {
    match o {
        None => None,
        Some((l, np)) => Some((prefix + l, np)),
    }
}

pub open spec fn compose_members(
    prefix: Seq<(Seq<u8>, SpecJson)>,
    o: Option<(Seq<(Seq<u8>, SpecJson)>, int)>,
) -> Option<(Seq<(Seq<u8>, SpecJson)>, int)> {
    match o {
        None => None,
        Some((l, np)) => Some((prefix + l, np)),
    }
}

/// Reads one JSON value starting exactly at `pos`.
pub fn parse_value(input: &[u8], pos: &mut usize) -> (r: Option<Json>)
    requires
        *old(pos) <= input@.len(),
    ensures
        *final(pos) <= input@.len(),
        match r {
            Some(j) => spec_parse_value(input@, *old(pos) as int) matches Some((sj, np))
                && json_matches(j, sj) && *final(pos) == np,
            None => spec_parse_value(input@, *old(pos) as int) is None,
        },
    decreases input@.len() - *old(pos),
{
    let ghost start = *old(pos) as int;
    if *pos >= input.len() {
        return None;
    }
    let c = input[*pos];
    if c == 110 || c == 116 {
        let lit: [u8; 4] = if c == 110 {
            [110, 117, 108, 108]
        } else {
            [116, 114, 117, 101]
        };
        if input.len() - *pos < 4 {
            return None;
        }
        let l0 = input[*pos] == lit[0] && input[*pos + 1] == lit[1] && input[*pos + 2] == lit[2]
            && input[*pos + 3] == lit[3];
        proof {
            assert(input@.subrange(start, start + 4) =~= seq![
                input@[start],
                input@[start + 1],
                input@[start + 2],
                input@[start + 3],
            ]);
            if l0 {
                assert(input@.subrange(start, start + 4) =~= seq![lit@[0], lit@[1], lit@[2], lit@[3]]);
            }
        }
        if l0 {
            *pos = *pos + 4;
            if c == 110 {
                proof {
                    assert(input@.subrange(start, start + 4) == seq![110u8, 117u8, 108u8, 108u8]);
                }
                return Some(Json::Null);
            } else {
                proof {
                    assert(input@.subrange(start, start + 4) == seq![116u8, 114u8, 117u8, 101u8]);
                }
                return Some(Json::Bool(true));
            }
        } else {
            proof {
                if c == 110 {
                    assert(input@.subrange(start, start + 4) != seq![110u8, 117u8, 108u8, 108u8]);
                } else {
                    assert(input@.subrange(start, start + 4) != seq![116u8, 114u8, 117u8, 101u8]);
                }
            }
            return None;
        }
    }
    if c == 102 {
        if input.len() - *pos < 5 {
            return None;
        }
        let l0 = input[*pos + 1] == 97 && input[*pos + 2] == 108 && input[*pos + 3] == 115
            && input[*pos + 4] == 101;
        proof {
            assert(input@.subrange(start, start + 5) =~= seq![
                input@[start],
                input@[start + 1],
                input@[start + 2],
                input@[start + 3],
                input@[start + 4],
            ]);
        }
        if l0 {
            *pos = *pos + 5;
            proof {
                assert(input@.subrange(start, start + 5) == seq![102u8, 97u8, 108u8, 115u8, 101u8]);
            }
            return Some(Json::Bool(false));
        } else {
            proof {
                assert(input@.subrange(start, start + 5) != seq![102u8, 97u8, 108u8, 115u8, 101u8]);
            }
            return None;
        }
    }
    if c == 34 {
        *pos = *pos + 1;
        match parse_str_body(input, pos) {
            None => {
                return None;
            },
            Some(content) => {
                let s = text::lossy_string(content.as_slice());
                return Some(Json::Str(s));
            },
        }
    }
    if 48 <= c && c <= 57 {
        let end = scan_digits(input, *pos);
        proof {
            assert(text::is_dec_digit(input@[start]));
            assert(end > *pos) by {
                assert(spec_scan_digits(input@, start) == spec_scan_digits(input@, start + 1));
                lemma_scan_digits_bounds(input@, start + 1);
            };
        }
        let digits = vstd::slice::slice_subrange(input, *pos, end);
        match text::parse_u64(digits) {
            None => {
                return None;
            },
            Some(v) => {
                *pos = end;
                return Some(Json::Num(v));
            },
        }
    }
    if c == 91 {
        *pos = *pos + 1;
        skip_ws(input, pos);
        proof {
            lemma_skip_ws_bounds(input@, start + 1);
        }
        if *pos < input.len() && input[*pos] == 93 {
            *pos = *pos + 1;
            let empty_items: Vec<Json> = Vec::new();
            proof {
                assert(json_matches(Json::Arr(empty_items), SpecJson::Arr(Seq::empty())));
            }
            return Some(Json::Arr(empty_items));
        }
        let ghost estart = *pos as int;
        let mut items: Vec<Json> = Vec::new();
        let ghost mut sacc: Seq<SpecJson> = Seq::empty();
        let ghost entry_pos = *pos as int;
        loop
            invariant
                start == *old(pos) as int,
                0 <= start < estart <= *pos <= input@.len(),
                items@.len() == sacc.len(),
                forall|k: int| 0 <= k < items@.len() ==> json_matches(#[trigger] items@[k], sacc[k]),
                spec_parse_elems(input@, estart) == compose_elems(
                    sacc,
                    spec_parse_elems(input@, *pos as int),
                ),
                spec_parse_value(input@, start) == (match spec_parse_elems(input@, estart) {
                    Some((l, np)) => Some((SpecJson::Arr(l), np)),
                    None => None,
                }),
            decreases input@.len() - *pos,
        {
            let ghost vstart = *pos as int;
            proof {
                lemma_value_bounds(input@, vstart);
            }
            let item = match parse_value(input, pos) {
                None => {
                    return None;
                },
                Some(j) => j,
            };
            let ghost sv = spec_parse_value(input@, vstart)->Some_0.0;
            skip_ws(input, pos);
            proof {
                lemma_skip_ws_bounds(input@, spec_parse_value(input@, vstart)->Some_0.1);
            }
            if *pos < input.len() && input[*pos] == 44 {
                let ghost p2 = *pos as int;
                *pos = *pos + 1;
                skip_ws(input, pos);
                proof {
                    lemma_skip_ws_bounds(input@, p2 + 1);
                }
                items.push(item);
                proof {
                    let ghost old_sacc = sacc;
                    sacc = sacc.push(sv);
                    let rest = spec_parse_elems(input@, *pos as int);
                    assert(spec_parse_elems(input@, vstart) == compose_elems(seq![sv], rest));
                    if rest is Some {
                        assert(old_sacc + (seq![sv] + rest->Some_0.0) =~= sacc + rest->Some_0.0);
                    }
                }
            } else if *pos < input.len() && input[*pos] == 93 {
                let ghost p2 = *pos as int;
                *pos = *pos + 1;
                items.push(item);
                proof {
                    let ghost old_sacc = sacc;
                    sacc = sacc.push(sv);
                    assert(spec_parse_elems(input@, vstart) == Some((seq![sv], p2 + 1)));
                    assert(old_sacc + seq![sv] =~= sacc);
                    assert(spec_parse_elems(input@, estart) == Some((sacc, p2 + 1)));
                }
                return Some(Json::Arr(items));
            } else {
                proof {
                    assert(spec_parse_elems(input@, vstart) is None);
                }
                return None;
            }
        }
    }
    if c == 123 {
        *pos = *pos + 1;
        skip_ws(input, pos);
        proof {
            lemma_skip_ws_bounds(input@, start + 1);
        }
        if *pos < input.len() && input[*pos] == 125 {
            *pos = *pos + 1;
            let empty_items: Vec<(String, Json)> = Vec::new();
            proof {
                assert(json_matches(Json::Obj(empty_items), SpecJson::Obj(Seq::empty())));
            }
            return Some(Json::Obj(empty_items));
        }
        let ghost mstart = *pos as int;
        let mut items: Vec<(String, Json)> = Vec::new();
        let ghost mut sacc: Seq<(Seq<u8>, SpecJson)> = Seq::empty();
        loop
            invariant
                start == *old(pos) as int,
                0 <= start < mstart <= *pos <= input@.len(),
                items@.len() == sacc.len(),
                forall|k: int|
                    0 <= k < items@.len() ==> str_matches(
                        (#[trigger] items@[k]).0@,
                        sacc[k].0,
                    ) && json_matches(items@[k].1, sacc[k].1),
                spec_parse_members(input@, mstart) == compose_members(
                    sacc,
                    spec_parse_members(input@, *pos as int),
                ),
                spec_parse_value(input@, start) == (match spec_parse_members(input@, mstart) {
                    Some((l, np)) => Some((SpecJson::Obj(l), np)),
                    None => None,
                }),
            decreases input@.len() - *pos,
        {
            let ghost kstart = *pos as int;
            if !(*pos < input.len()) {
                return None;
            }
            if input[*pos] != 34 {
                return None;
            }
            *pos = *pos + 1;
            proof {
                lemma_str_body_bounds(input@, kstart + 1);
            }
            let key_bytes = match parse_str_body(input, pos) {
                None => {
                    return None;
                },
                Some(v) => v,
            };
            let ghost sk = spec_parse_str_body(input@, kstart + 1)->Some_0.0;
            let key = text::lossy_string(key_bytes.as_slice());
            skip_ws(input, pos);
            proof {
                lemma_skip_ws_bounds(input@, spec_parse_str_body(input@, kstart + 1)->Some_0.1);
            }
            if !(*pos < input.len()) {
                return None;
            }
            if input[*pos] != 58 {
                return None;
            }
            let ghost p2 = *pos as int;
            *pos = *pos + 1;
            skip_ws(input, pos);
            proof {
                lemma_skip_ws_bounds(input@, p2 + 1);
            }
            let ghost vstart = *pos as int;
            proof {
                lemma_value_bounds(input@, vstart);
            }
            let item = match parse_value(input, pos) {
                None => {
                    return None;
                },
                Some(j) => j,
            };
            let ghost sv = spec_parse_value(input@, vstart)->Some_0.0;
            skip_ws(input, pos);
            proof {
                lemma_skip_ws_bounds(input@, spec_parse_value(input@, vstart)->Some_0.1);
            }
            if *pos < input.len() && input[*pos] == 44 {
                let ghost p5 = *pos as int;
                *pos = *pos + 1;
                skip_ws(input, pos);
                proof {
                    lemma_skip_ws_bounds(input@, p5 + 1);
                }
                items.push((key, item));
                proof {
                    let ghost old_sacc = sacc;
                    sacc = sacc.push((sk, sv));
                    let rest = spec_parse_members(input@, *pos as int);
                    assert(spec_parse_members(input@, kstart) == compose_members(
                        seq![(sk, sv)],
                        rest,
                    ));
                    if rest is Some {
                        assert(old_sacc + (seq![(sk, sv)] + rest->Some_0.0) =~= sacc
                            + rest->Some_0.0);
                    }
                }
            } else if *pos < input.len() && input[*pos] == 125 {
                let ghost p5 = *pos as int;
                *pos = *pos + 1;
                items.push((key, item));
                proof {
                    let ghost old_sacc = sacc;
                    sacc = sacc.push((sk, sv));
                    assert(spec_parse_members(input@, kstart) == Some((seq![(sk, sv)], p5 + 1)));
                    assert(old_sacc + seq![(sk, sv)] =~= sacc);
                    assert(spec_parse_members(input@, mstart) == Some((sacc, p5 + 1)));
                }
                return Some(Json::Obj(items));
            } else {
                proof {
                    assert(spec_parse_members(input@, kstart) is None);
                }
                return None;
            }
        }
    }
    None
}

/// Reads the whole input as one JSON value; whitespace may surround it,
/// nothing else.
pub fn parse_json(input: &[u8]) -> (r: Option<Json>)
    ensures
        match r {
            Some(j) => spec_parse_json(input@) matches Some(sj) && json_matches(j, sj),
            None => spec_parse_json(input@) is None,
        },
{
    let mut pos: usize = 0;
    skip_ws(input, &mut pos);
    match parse_value(input, &mut pos) {
        None => None,
        Some(j) => {
            skip_ws(input, &mut pos);
            if pos == input.len() {
                Some(j)
            } else {
                None
            }
        },
    }
}

/// A value consumes at least one byte and stays within the input.
pub proof fn lemma_value_bounds(s: Seq<u8>, pos: int)
    requires
        0 <= pos <= s.len(),
    ensures
        spec_parse_value(s, pos) matches Some((v, np)) ==> pos < np <= s.len(),
    decreases s.len() - pos, 0int,
{
    if 0 <= pos < s.len() {
        let c = s[pos];
        if c == 34 {
            lemma_str_body_bounds(s, pos + 1);
        } else if text::is_dec_digit(c) {
            lemma_scan_digits_bounds(s, pos);
        } else if c == 91 {
            let p1 = spec_skip_ws(s, pos + 1);
            lemma_skip_ws_bounds(s, pos + 1);
            if pos < p1 <= s.len() && !(p1 < s.len() && s[p1] == 93) {
                lemma_elems_bounds(s, p1);
            }
        } else if c == 123 {
            let p1 = spec_skip_ws(s, pos + 1);
            lemma_skip_ws_bounds(s, pos + 1);
            if pos < p1 <= s.len() && !(p1 < s.len() && s[p1] == 125) {
                lemma_members_bounds(s, p1);
            }
        }
    }
}

pub proof fn lemma_elems_bounds(s: Seq<u8>, pos: int)
    requires
        0 <= pos <= s.len(),
    ensures
        spec_parse_elems(s, pos) matches Some((l, np)) ==> pos < np <= s.len(),
    decreases s.len() - pos, 1int,
{
    lemma_value_bounds(s, pos);
    match spec_parse_value(s, pos) {
        None => {},
        Some((v, p1)) => {
            lemma_skip_ws_bounds(s, p1);
            let p2 = spec_skip_ws(s, p1);
            if pos < p2 <= s.len() && p2 < s.len() && s[p2] == 44 {
                lemma_skip_ws_bounds(s, p2 + 1);
                let p3 = spec_skip_ws(s, p2 + 1);
                if p2 < p3 <= s.len() {
                    lemma_elems_bounds(s, p3);
                }
            }
        },
    }
}

// ---------------------------------------------------------------------------
// Round trip: parsing what was emitted
// ---------------------------------------------------------------------------

/// The first emitted byte of any value: never whitespace, a digit only for
/// numbers, and never a closing delimiter, comma or colon.
pub proof fn lemma_emit_head(j: SpecJson)
    ensures
        spec_emit(j).len() > 0,
        !is_ws(spec_emit(j)[0]),
        spec_emit(j)[0] != 44 && spec_emit(j)[0] != 93 && spec_emit(j)[0] != 125 && spec_emit(j)[0]
            != 58 && spec_emit(j)[0] != 0,
{
    match j {
        SpecJson::Num(n) => {
            text::lemma_u64_digits_are_digits(n as nat);
            assert(text::is_dec_digit(spec_emit(j)[0]));
        },
        _ => {},
    }
}

/// The first digit byte of a number's spelling.
pub proof fn lemma_digits_head(n: nat)
    ensures
        text::is_dec_digit(spec_u64_digits_alias(n)[0]),
        spec_u64_digits_alias(n).len() > 0,
{
    text::lemma_u64_digits_are_digits(n);
}

/// The decimal digits of `n`, under the name the text module gives them.
pub open spec fn spec_u64_digits_alias(n: nat) -> Seq<u8> {
    text::spec_u64_digits(n)
}

/// Skipping whitespace at a non-whitespace byte stays put.
pub proof fn lemma_skip_ws_stay(s: Seq<u8>, pos: int)
    requires
        0 <= pos,
        pos < s.len() ==> !is_ws(s[pos]),
    ensures
        spec_skip_ws(s, pos) == pos,
{
}

/// Reading back an emitted string body returns its content.
#[verifier::rlimit(100)]
pub proof fn lemma_str_body_emit(s: Seq<u8>, b: Seq<u8>, p: int, r: Seq<u8>)
    requires
        str_wf(b),
        0 <= p <= s.len(),
        s =~= s.take(p) + spec_escape(b) + seq![34u8] + r,
    ensures
        spec_parse_str_body(s, p) == Some((b, p + spec_escape(b).len() + 1)),
    decreases b.len(),
{
    if b.len() == 0 {
        assert(spec_escape(b) =~= Seq::<u8>::empty());
        assert(s[p] == 34);
        assert(Seq::<u8>::empty() =~= b);
    } else {
        let x = b[0];
        let head: Seq<u8> = if x == 34 {
            seq![92u8, 34u8]
        } else if x == 92 {
            seq![92u8, 92u8]
        } else {
            seq![x]
        };
        let tail = b.drop_first();
        assert(spec_escape(b) =~= head + spec_escape(tail));
        let p2 = p + head.len();
        assert(s.take(p2) =~= s.take(p) + head);
        assert(s =~= s.take(p2) + spec_escape(tail) + seq![34u8] + r);
        assert(32 <= x <= 126);
        lemma_str_body_emit(s, tail, p2, r);
        if x == 34 || x == 92 {
            assert(s[p] == 92);
            assert(s[p + 1] == head[1]);
            assert(unescape(head[1]) == Some(x));
            assert(seq![x] + tail =~= b);
        } else {
            assert(s[p] == x);
            assert(x != 34 && x != 92 && x >= 32);
            assert(seq![x] + tail =~= b);
        }
    }
}

/// Reading back an emitted number returns it, as long as what follows does
/// not begin with another digit.
pub proof fn lemma_num_emit(s: Seq<u8>, n: u64, p: int, r: Seq<u8>)
    requires
        0 <= p <= s.len(),
        s =~= s.take(p) + text::spec_u64_digits(n as nat) + r,
        r.len() > 0 ==> !text::is_dec_digit(r[0]),
    ensures
        spec_parse_num(s, p) == Some((SpecJson::Num(n), p + text::spec_u64_digits(n as nat).len())),
{
    let d = text::spec_u64_digits(n as nat);
    text::lemma_u64_digits_are_digits(n as nat);
    lemma_scan_digit_run(s, p, p, d.len() + p);
    assert(spec_scan_digits(s, p) == p + d.len());
    assert(s.subrange(p, p + d.len()) =~= d);
    text::lemma_u64_dec_round_trip(n);
}

/// Scanning a digit run bounded by a non-digit (or the end) finds its end.
pub proof fn lemma_scan_digit_run(s: Seq<u8>, base: int, pos: int, end: int)
    requires
        0 <= base <= pos <= end <= s.len(),
        forall|k: int| pos <= k < end ==> text::is_dec_digit(#[trigger] s[k]),
        end < s.len() ==> !text::is_dec_digit(s[end]),
    ensures
        spec_scan_digits(s, pos) == end,
    decreases end - pos,
{
    if pos < end {
        lemma_scan_digit_run(s, base, pos + 1, end)
    }
}

/// Reading back an emitted value returns it, as long as what follows does
/// not begin with a digit.
#[verifier::rlimit(100)]
#[verifier::spinoff_prover]
pub proof fn lemma_value_emit(s: Seq<u8>, j: SpecJson, p: int, r: Seq<u8>)
    requires
        spec_json_wf(j),
        0 <= p <= s.len(),
        s =~= s.take(p) + spec_emit(j) + r,
        r.len() > 0 ==> !text::is_dec_digit(r[0]),
    ensures
        spec_parse_value(s, p) == Some((j, p + spec_emit(j).len())),
    decreases j, 0int, 0int,
{
    lemma_emit_head(j);
    assert(s[p] == spec_emit(j)[0]);
    match j {
        SpecJson::Null => {
            assert(s.subrange(p, p + 4) =~= seq![110u8, 117u8, 108u8, 108u8]);
            assert(spec_emit(j).len() == 4);
            assert(spec_parse_value(s, p) == Some((j, p + spec_emit(j).len())));
        },
        SpecJson::Bool(b) => {
            if b {
                assert(s.subrange(p, p + 4) =~= seq![116u8, 114u8, 117u8, 101u8]);
            } else {
                assert(s.subrange(p, p + 5) =~= seq![102u8, 97u8, 108u8, 115u8, 101u8]);
                assert(s[p] == 102);
            }
            assert(spec_parse_value(s, p) == Some((j, p + spec_emit(j).len())));
        },
        SpecJson::Num(n) => {
            text::lemma_u64_digits_are_digits(n as nat);
            lemma_num_emit(s, n, p, r);
            assert(text::is_dec_digit(s[p]));
            assert(s[p] != 110 && s[p] != 116 && s[p] != 102 && s[p] != 34);
            assert(spec_parse_value(s, p) == Some((j, p + spec_emit(j).len())));
        },
        SpecJson::Str(b) => {
            assert(s[p] == 34);
            let p1 = p + 1;
            assert(s.take(p1) =~= s.take(p) + seq![34u8]);
            assert(s =~= s.take(p1) + spec_escape(b) + seq![34u8] + r);
            lemma_str_body_emit(s, b, p1, r);
            assert(spec_parse_value(s, p) == Some((j, p + spec_emit(j).len())));
        },
        SpecJson::Arr(l) => {
            assert(s[p] == 91);
            let p1 = p + 1;
            let body = spec_emit_elems(l, 0);
            assert(s.take(p1) =~= s.take(p) + seq![91u8]);
            assert(s =~= s.take(p1) + body + seq![93u8] + r);
            if l.len() == 0 {
                assert(body =~= Seq::<u8>::empty());
                assert(s[p1] == 93);
                lemma_skip_ws_stay(s, p1);
                assert(l =~= Seq::<SpecJson>::empty());
            } else {
                lemma_emit_head(l[0]);
                assert(body[0] == spec_emit(l[0])[0]);
                assert(s[p1] == body[0]);
                lemma_skip_ws_stay(s, p1);
                assert(s[p1] != 93);
                lemma_elems_emit(s, l, 0, p1, r);
                assert(l.skip(0) =~= l);
            }
            assert(spec_parse_value(s, p) == Some((j, p + spec_emit(j).len())));
        },
        SpecJson::Obj(ms) => {
            assert(s[p] == 123);
            let p1 = p + 1;
            let body = spec_emit_members(ms, 0);
            assert(s.take(p1) =~= s.take(p) + seq![123u8]);
            assert(s =~= s.take(p1) + body + seq![125u8] + r);
            if ms.len() == 0 {
                assert(body =~= Seq::<u8>::empty());
                assert(s[p1] == 125);
                lemma_skip_ws_stay(s, p1);
                assert(ms =~= Seq::<(Seq<u8>, SpecJson)>::empty());
            } else {
                assert(body[0] == 34);
                assert(s[p1] == 34);
                lemma_skip_ws_stay(s, p1);
                lemma_members_emit(s, ms, 0, p1, r);
                assert(ms.skip(0) =~= ms);
            }
            assert(spec_parse_value(s, p) == Some((j, p + spec_emit(j).len())));
        },
    }
}

/// Reading back emitted array elements returns them.
#[verifier::rlimit(100)]
pub proof fn lemma_elems_emit(s: Seq<u8>, l: Seq<SpecJson>, i: int, p: int, r: Seq<u8>)
    requires
        0 <= i < l.len(),
        forall|k: int| 0 <= k < l.len() ==> spec_json_wf(#[trigger] l[k]),
        0 <= p <= s.len(),
        s =~= s.take(p) + spec_emit_elems(l, i) + seq![93u8] + r,
    ensures
        spec_parse_elems(s, p) == Some((l.skip(i), p + spec_emit_elems(l, i).len() + 1)),
    decreases l, l.len() - i, 1int,
{
    let ej = spec_emit(l[i]);
    lemma_emit_head(l[i]);
    if i + 1 < l.len() {
        let rest = spec_emit_elems(l, i + 1);
        assert(spec_emit_elems(l, i) =~= ej + seq![44u8] + rest);
        let after = p + ej.len();
        assert(s =~= s.take(p) + ej + (seq![44u8] + rest + seq![93u8] + r));
        let r2 = seq![44u8] + rest + seq![93u8] + r;
        assert(r2[0] == 44);
        lemma_value_emit(s, l[i], p, r2);
        assert(s[after] == 44);
        lemma_skip_ws_stay(s, after);
        let p3 = after + 1;
        assert(s.take(p3) =~= s.take(p) + ej + seq![44u8]);
        assert(s =~= s.take(p3) + rest + seq![93u8] + r);
        lemma_emit_head(l[i + 1]);
        assert(rest[0] == spec_emit(l[i + 1])[0]);
        assert(s[p3] == rest[0]);
        lemma_skip_ws_stay(s, p3);
        lemma_elems_emit(s, l, i + 1, p3, r);
        assert(seq![l[i]] + l.skip(i + 1) =~= l.skip(i));
    } else {
        assert(spec_emit_elems(l, i) =~= ej);
        let after = p + ej.len();
        let r2 = seq![93u8] + r;
        assert(s =~= s.take(p) + ej + r2);
        assert(r2[0] == 93);
        lemma_value_emit(s, l[i], p, r2);
        assert(s[after] == 93);
        lemma_skip_ws_stay(s, after);
        assert(seq![l[i]] =~= l.skip(i));
    }
}

/// Reading back emitted object members returns them.
#[verifier::rlimit(100)]
pub proof fn lemma_members_emit(s: Seq<u8>, ms: Seq<(Seq<u8>, SpecJson)>, i: int, p: int, r: Seq<
    u8,
>)
    requires
        0 <= i < ms.len(),
        forall|k: int|
            0 <= k < ms.len() ==> str_wf((#[trigger] ms[k]).0) && spec_json_wf(ms[k].1),
        0 <= p <= s.len(),
        s =~= s.take(p) + spec_emit_members(ms, i) + seq![125u8] + r,
    ensures
        spec_parse_members(s, p) == Some((ms.skip(i), p + spec_emit_members(ms, i).len() + 1)),
    decreases ms, ms.len() - i, 1int,
{
    let k = ms[i].0;
    let v = ms[i].1;
    let ek = spec_escape(k);
    let ev = spec_emit(v);
    lemma_emit_head(v);
    let key_part = seq![34u8] + ek + seq![34u8, 58u8];
    if i + 1 < ms.len() {
        let rest = spec_emit_members(ms, i + 1);
        assert(spec_emit_members(ms, i) =~= key_part + ev + seq![44u8] + rest);
        assert(s[p] == 34);
        let p1 = p + 1;
        assert(s.take(p1) =~= s.take(p) + seq![34u8]);
        assert(s =~= s.take(p1) + ek + seq![34u8] + (seq![58u8] + ev + seq![44u8] + rest + seq![
            125u8,
        ] + r));
        lemma_str_body_emit(s, k, p1, seq![58u8] + ev + seq![44u8] + rest + seq![125u8] + r);
        let p2 = p1 + ek.len() + 1;
        assert(s[p2] == 58);
        lemma_skip_ws_stay(s, p2);
        let p3 = p2 + 1;
        assert(s.take(p3) =~= s.take(p) + key_part);
        let r2 = seq![44u8] + rest + seq![125u8] + r;
        assert(s =~= s.take(p3) + ev + r2);
        assert(s[p3] == ev[0]);
        lemma_skip_ws_stay(s, p3);
        assert(r2[0] == 44);
        lemma_value_emit(s, v, p3, r2);
        let p4 = p3 + ev.len();
        assert(s[p4] == 44);
        lemma_skip_ws_stay(s, p4);
        let p5 = p4 + 1;
        assert(s.take(p5) =~= s.take(p) + key_part + ev + seq![44u8]);
        assert(s =~= s.take(p5) + rest + seq![125u8] + r);
        assert(rest[0] == 34);
        assert(s[p5] == 34);
        lemma_skip_ws_stay(s, p5);
        lemma_members_emit(s, ms, i + 1, p5, r);
        assert(seq![(k, v)] + ms.skip(i + 1) =~= ms.skip(i));
    } else {
        assert(spec_emit_members(ms, i) =~= key_part + ev);
        assert(s[p] == 34);
        let p1 = p + 1;
        assert(s.take(p1) =~= s.take(p) + seq![34u8]);
        assert(s =~= s.take(p1) + ek + seq![34u8] + (seq![58u8] + ev + seq![125u8] + r));
        lemma_str_body_emit(s, k, p1, seq![58u8] + ev + seq![125u8] + r);
        let p2 = p1 + ek.len() + 1;
        assert(s[p2] == 58);
        lemma_skip_ws_stay(s, p2);
        let p3 = p2 + 1;
        assert(s.take(p3) =~= s.take(p) + key_part);
        let r2 = seq![125u8] + r;
        assert(s =~= s.take(p3) + ev + r2);
        assert(s[p3] == ev[0]);
        lemma_skip_ws_stay(s, p3);
        assert(r2[0] == 125);
        lemma_value_emit(s, v, p3, r2);
        let p4 = p3 + ev.len();
        assert(s[p4] == 125);
        lemma_skip_ws_stay(s, p4);
        assert(seq![(k, v)] =~= ms.skip(i));
    }
}

/// Round trip: parsing an emitted well-formed tree returns the tree.
pub proof fn lemma_parse_emit(j: SpecJson)
    requires
        spec_json_wf(j),
    ensures
        spec_parse_json(spec_emit(j)) == Some(j),
{
    let s = spec_emit(j);
    lemma_emit_head(j);
    lemma_skip_ws_stay(s, 0);
    assert(s.take(0) =~= Seq::<u8>::empty());
    assert(s =~= s.take(0) + spec_emit(j) + Seq::<u8>::empty());
    lemma_value_emit(s, j, 0, Seq::empty());
    lemma_skip_ws_stay(s, s.len() as int);
}

pub proof fn lemma_members_bounds(s: Seq<u8>, pos: int)
    requires
        0 <= pos <= s.len(),
    ensures
        spec_parse_members(s, pos) matches Some((l, np)) ==> pos < np <= s.len(),
    decreases s.len() - pos, 1int,
{
    if 0 <= pos < s.len() && s[pos] == 34 {
        lemma_str_body_bounds(s, pos + 1);
        match spec_parse_str_body(s, pos + 1) {
            None => {},
            Some((k, p1)) => {
                lemma_skip_ws_bounds(s, p1);
                let p2 = spec_skip_ws(s, p1);
                if pos < p2 <= s.len() && p2 < s.len() && s[p2] == 58 {
                    lemma_skip_ws_bounds(s, p2 + 1);
                    let p3 = spec_skip_ws(s, p2 + 1);
                    if p2 < p3 <= s.len() {
                        lemma_value_bounds(s, p3);
                        match spec_parse_value(s, p3) {
                            None => {},
                            Some((v, p4)) => {
                                lemma_skip_ws_bounds(s, p4);
                                let p5 = spec_skip_ws(s, p4);
                                if p3 < p5 <= s.len() && p5 < s.len() && s[p5] == 44 {
                                    lemma_skip_ws_bounds(s, p5 + 1);
                                    let p6 = spec_skip_ws(s, p5 + 1);
                                    if p5 < p6 <= s.len() {
                                        lemma_members_bounds(s, p6);
                                    }
                                }
                            },
                        }
                    }
                }
            },
        }
    }
}

} // verus!
