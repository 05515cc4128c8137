use vstd::prelude::*;
use vstd::string::StrSliceExecFns;

use crate::digits::{digits_of, lemma_digits_value_roundtrip, lemma_value_prefix_le,
    lemma_value_step, value_of};
use crate::pasta::{Pasta, PastaKind, PastaV};
use crate::store::PastaStore;
use crate::text::{chars_of_str, string_from_chars};
use crate::StoreError;

verus! {

// The snapshot format. Numbers are decimal, most significant digit
// first, closed by a newline. A string is its character count as a
// number, then exactly that many raw characters, so no escaping is
// needed. A snapshot is the record count, then each record: id, created,
// expiration, kind word, content string, file-name string.
/// The decimal digit character for a value below ten.
pub open spec fn digit_char(d: nat) -> char {
    if d == 0 { '0' }
    else if d == 1 { '1' }
    else if d == 2 { '2' }
    else if d == 3 { '3' }
    else if d == 4 { '4' }
    else if d == 5 { '5' }
    else if d == 6 { '6' }
    else if d == 7 { '7' }
    else if d == 8 { '8' }
    else { '9' }
}

/// The value of a decimal digit character, `-1` for any other character.
pub open spec fn digit_val(c: char) -> int {
    if c == '0' { 0 }
    else if c == '1' { 1 }
    else if c == '2' { 2 }
    else if c == '3' { 3 }
    else if c == '4' { 4 }
    else if c == '5' { 5 }
    else if c == '6' { 6 }
    else if c == '7' { 7 }
    else if c == '8' { 8 }
    else if c == '9' { 9 }
    else { -1 }
}

/// The decimal rendering of a number, most significant digit first.
pub open spec fn dec_chars(n: nat) -> Seq<char> {
    digits_of(n, 10).map_values(|d: nat| digit_char(d))
}

/// A serialized number: its decimal digits closed by a newline.
pub open spec fn ser_num(n: nat) -> Seq<char> {
    dec_chars(n) + seq!['\n']
}

/// A serialized string: its length, then its characters, unescaped.
pub open spec fn ser_str(s: Seq<char>) -> Seq<char> {
    ser_num(s.len()) + s
}

/// The keyword a paste kind is stored as.
pub open spec fn kind_chars(k: PastaKind) -> Seq<char> {
    match k {
        PastaKind::Text => seq!['t', 'e', 'x', 't', '\n'],
        PastaKind::Url => seq!['u', 'r', 'l', '\n'],
        PastaKind::File => seq!['f', 'i', 'l', 'e', '\n'],
    }
}

/// One serialized paste record.
pub open spec fn ser_paste(p: PastaV) -> Seq<char> {
    ser_num(p.id as nat) + (ser_num(p.created as nat) + (ser_num(p.expiration as nat) + (
    kind_chars(p.kind) + (ser_str(p.content) + ser_str(p.file)))))
}

/// Serialized records, in order.
pub open spec fn ser_list(ps: Seq<PastaV>) -> Seq<char>
    decreases ps.len(),
{
    if ps.len() == 0 {
        Seq::empty()
    } else {
        ser_paste(ps[0]) + ser_list(ps.skip(1))
    }
}

/// A full serialized snapshot: the record count, then the records.
pub open spec fn ser_snapshot(ps: Seq<PastaV>) -> Seq<char> {
    ser_num(ps.len()) + ser_list(ps)
}

/// How many leading characters of a text are decimal digits.
pub open spec fn digit_prefix_len(s: Seq<char>) -> nat
    decreases s.len(),
{
    if s.len() == 0 || digit_val(s[0]) < 0 {
        0
    } else {
        1 + digit_prefix_len(s.skip(1))
    }
}

/// Parse a serialized number: the maximal digit prefix, which must be
/// nonempty, closed by a newline, and denote a value that fits 64 bits.
#[verifier::opaque]
pub open spec fn parse_num(s: Seq<char>) -> Option<(nat, Seq<char>)> {
    let k = digit_prefix_len(s) as int;
    if k == 0 {
        None
    } else if k >= s.len() {
        None
    } else if s[k] != '\n' {
        None
    } else {
        let v = value_of(s.take(k).map_values(|c: char| digit_val(c) as nat), 10);
        if v > u64::MAX {
            None
        } else {
            Some((v, s.skip(k + 1)))
        }
    }
}

/// Parse a serialized string: its length, then that many characters.
pub open spec fn parse_str(s: Seq<char>) -> Option<(Seq<char>, Seq<char>)> {
    match parse_num(s) {
        None => None,
        Some((n, r)) => if r.len() < n {
            None
        } else {
            Some((r.take(n as int), r.skip(n as int)))
        },
    }
}

/// Parse a stored kind keyword.
pub open spec fn parse_kind(s: Seq<char>) -> Option<(PastaKind, Seq<char>)> {
    if s.len() >= 5 && s.take(5) == kind_chars(PastaKind::Text) {
        Some((PastaKind::Text, s.skip(5)))
    } else if s.len() >= 4 && s.take(4) == kind_chars(PastaKind::Url) {
        Some((PastaKind::Url, s.skip(4)))
    } else if s.len() >= 5 && s.take(5) == kind_chars(PastaKind::File) {
        Some((PastaKind::File, s.skip(5)))
    } else {
        None
    }
}

/// Parse one serialized paste record.
#[verifier::opaque]
pub open spec fn parse_paste(s: Seq<char>) -> Option<(PastaV, Seq<char>)> {
    match parse_num(s) {
        None => None,
        Some((id, r1)) => match parse_num(r1) {
            None => None,
            Some((created, r2)) => match parse_num(r2) {
                None => None,
                Some((expiration, r3)) => match parse_kind(r3) {
                    None => None,
                    Some((kind, r4)) => match parse_str(r4) {
                        None => None,
                        Some((content, r5)) => match parse_str(r5) {
                            None => None,
                            Some((file, r6)) => Some(
                                (
                                    PastaV {
                                        id: id as u64,
                                        content,
                                        file,
                                        created: created as u64,
                                        kind,
                                        expiration: expiration as u64,
                                    },
                                    r6,
                                ),
                            ),
                        },
                    },
                },
            },
        },
    }
}

/// Parse exactly `n` serialized records.
pub open spec fn parse_list(s: Seq<char>, n: nat) -> Option<(Seq<PastaV>, Seq<char>)>
    decreases n,
{
    if n == 0 {
        Some((Seq::empty(), s))
    } else {
        match parse_paste(s) {
            None => None,
            Some((p, r)) => match parse_list(r, (n - 1) as nat) {
                None => None,
                Some((ps, r2)) => Some((seq![p] + ps, r2)),
            },
        }
    }
}

/// Parse a full snapshot; every character must be consumed.
pub open spec fn parse_snapshot(s: Seq<char>) -> Option<Seq<PastaV>> {
    match parse_num(s) {
        None => None,
        Some((n, r)) => match parse_list(r, n) {
            None => None,
            Some((ps, r2)) => if r2.len() == 0 {
                Some(ps)
            } else {
                None
            },
        },
    }
}

/// A record whose strings a serialized length field can describe. Any
/// record held in memory satisfies this.
pub open spec fn bounded_record(p: PastaV) -> bool {
    p.content.len() <= u64::MAX && p.file.len() <= u64::MAX
}

/// The decimal rendering of a number consists of digit characters, at
/// least one, and maps back to the number's digits.
proof fn lemma_dec_chars(n: nat)
    ensures
        dec_chars(n).len() >= 1,
        forall|i: int| 0 <= i < dec_chars(n).len() ==> digit_val(#[trigger] dec_chars(n)[i]) >= 0
            && digit_val(dec_chars(n)[i]) < 10,
        dec_chars(n).map_values(|c: char| digit_val(c) as nat) =~= digits_of(n, 10),
        value_of(dec_chars(n).map_values(|c: char| digit_val(c) as nat), 10) == n,
{
    lemma_digits_value_roundtrip(n, 10);
    let ds = digits_of(n, 10);
    assert forall|i: int| 0 <= i < dec_chars(n).len() implies digit_val(
        #[trigger] dec_chars(n)[i],
    ) >= 0 && digit_val(dec_chars(n)[i]) < 10 by {
        assert(dec_chars(n)[i] == digit_char(ds[i]));
        assert(ds[i] < 10);
    }
    assert(dec_chars(n).map_values(|c: char| digit_val(c) as nat) =~= ds);
}

/// The digit prefix of digits followed by a non-digit is exactly the
/// digits.
proof fn lemma_digit_prefix_concat(a: Seq<char>, b: Seq<char>)
    requires
        forall|i: int| 0 <= i < a.len() ==> digit_val(#[trigger] a[i]) >= 0,
        b.len() > 0,
        digit_val(b[0]) < 0,
    ensures
        digit_prefix_len(a + b) == a.len(),
    decreases a.len(),
{
    if a.len() == 0 {
        assert(a + b =~= b);
    } else {
        assert((a + b)[0] == a[0]);
        assert((a + b).skip(1) =~= a.skip(1) + b);
        lemma_digit_prefix_concat(a.skip(1), b);
    }
}

/// Parsing what a number serializes to yields the number and the rest.
proof fn lemma_parse_num_of_ser(n: nat, rest: Seq<char>)
    requires
        n <= u64::MAX,
    ensures
        parse_num(ser_num(n) + rest) == Some((n, rest)),
{
    reveal(parse_num);
    lemma_dec_chars(n);
    let a = dec_chars(n);
    let b = seq!['\n'] + rest;
    let s = ser_num(n) + rest;
    assert(s =~= a + b);
    lemma_digit_prefix_concat(a, b);
    let k = a.len() as int;
    assert(digit_prefix_len(s) == a.len());
    assert(0 < k < s.len());
    assert(s[k] == '\n');
    assert(s.take(k) =~= a);
    assert(value_of(s.take(k).map_values(|c: char| digit_val(c) as nat), 10) == n);
    assert(s.skip(k + 1) =~= rest);
}

/// Parsing what a string serializes to yields the string and the rest.
proof fn lemma_parse_str_of_ser(t: Seq<char>, rest: Seq<char>)
    requires
        t.len() <= u64::MAX,
    ensures
        parse_str(ser_str(t) + rest) == Some((t, rest)),
{
    let s = ser_str(t) + rest;
    assert(s =~= ser_num(t.len()) + (t + rest));
    lemma_parse_num_of_ser(t.len(), t + rest);
    assert((t + rest).take(t.len() as int) =~= t);
    assert((t + rest).skip(t.len() as int) =~= rest);
}

/// Parsing what a kind serializes to yields the kind and the rest.
proof fn lemma_parse_kind_of_ser(k: PastaKind, rest: Seq<char>)
    ensures
        parse_kind(kind_chars(k) + rest) == Some((k, rest)),
{
    let s = kind_chars(k) + rest;
    match k {
        PastaKind::Text => {
            assert(s.take(5) =~= kind_chars(PastaKind::Text));
            assert(s.skip(5) =~= rest);
        },
        PastaKind::Url => {
            if s.len() >= 5 {
                assert(s.take(5)[0] == 'u');
                assert(s.take(5) != kind_chars(PastaKind::Text));
            }
            assert(s.take(4) =~= kind_chars(PastaKind::Url));
            assert(s.skip(4) =~= rest);
        },
        PastaKind::File => {
            assert(s.take(5)[0] == 'f');
            assert(s.take(5) != kind_chars(PastaKind::Text));
            assert(s.take(4)[0] == 'f');
            assert(s.take(4) != kind_chars(PastaKind::Url));
            assert(s.take(5) =~= kind_chars(PastaKind::File));
            assert(s.skip(5) =~= rest);
        },
    }
}

/// Parsing what a record serializes to yields the record and the rest.
proof fn lemma_parse_paste_of_ser(p: PastaV, rest: Seq<char>)
    requires
        bounded_record(p),
    ensures
        parse_paste(ser_paste(p) + rest) == Some((p, rest)),
{
    reveal(parse_paste);
    let a = ser_num(p.id as nat);
    let b = ser_num(p.created as nat);
    let c = ser_num(p.expiration as nat);
    let d = kind_chars(p.kind);
    let e = ser_str(p.content);
    let f = ser_str(p.file);
    let r5 = f + rest;
    let r4 = e + r5;
    let r3 = d + r4;
    let r2 = c + r3;
    let r1 = b + r2;
    vstd::seq_lib::lemma_concat_associative(e, f, rest);
    vstd::seq_lib::lemma_concat_associative(d, e + f, rest);
    vstd::seq_lib::lemma_concat_associative(c, d + (e + f), rest);
    vstd::seq_lib::lemma_concat_associative(b, c + (d + (e + f)), rest);
    vstd::seq_lib::lemma_concat_associative(a, b + (c + (d + (e + f))), rest);
    assert(ser_paste(p) + rest == a + r1);
    lemma_parse_num_of_ser(p.id as nat, r1);
    lemma_parse_num_of_ser(p.created as nat, r2);
    lemma_parse_num_of_ser(p.expiration as nat, r3);
    lemma_parse_kind_of_ser(p.kind, r4);
    lemma_parse_str_of_ser(p.content, r5);
    lemma_parse_str_of_ser(p.file, rest);
}

/// Parsing what a record list serializes to yields the records and the
/// rest.
#[verifier::rlimit(100)]
#[verifier::spinoff_prover]
proof fn lemma_parse_list_of_ser(ps: Seq<PastaV>, rest: Seq<char>)
    requires
        forall|i: int| 0 <= i < ps.len() ==> bounded_record(#[trigger] ps[i]),
    ensures
        parse_list(ser_list(ps) + rest, ps.len()) == Some((ps, rest)),
    decreases ps.len(),
{
    if ps.len() == 0 {
        assert(ser_list(ps) + rest =~= rest);
        assert(ps =~= Seq::<PastaV>::empty());
    } else {
        let tail = ser_list(ps.skip(1)) + rest;
        vstd::seq_lib::lemma_concat_associative(ser_paste(ps[0]), ser_list(ps.skip(1)), rest);
        assert(ser_list(ps) + rest == ser_paste(ps[0]) + tail);
        lemma_parse_paste_of_ser(ps[0], tail);
        assert forall|i: int| 0 <= i < ps.skip(1).len() implies bounded_record(
            #[trigger] ps.skip(1)[i],
        ) by {
            assert(ps.skip(1)[i] == ps[i + 1]);
        }
        lemma_parse_list_of_ser(ps.skip(1), rest);
        assert(seq![ps[0]] + ps.skip(1) =~= ps);
    }
}

/// Appending one record to a list serializes to the list's rendering
/// followed by the record's.
proof fn lemma_ser_list_snoc(ps: Seq<PastaV>, p: PastaV)
    ensures
        ser_list(ps.push(p)) == ser_list(ps) + ser_paste(p),
    decreases ps.len(),
{
    if ps.len() == 0 {
        let e = Seq::<PastaV>::empty();
        assert(ps.push(p)[0] == p);
        assert(ps.push(p).skip(1) =~= e);
        assert(ser_list(e) == Seq::<char>::empty());
        assert(ser_list(ps.push(p)) == ser_paste(p) + Seq::<char>::empty());
        assert(ser_list(ps) == Seq::<char>::empty());
        assert(ser_paste(p) + Seq::<char>::empty() =~= Seq::<char>::empty() + ser_paste(p));
    } else {
        assert(ps.push(p)[0] == ps[0]);
        assert(ps.push(p).skip(1) =~= ps.skip(1).push(p));
        lemma_ser_list_snoc(ps.skip(1), p);
        assert(ser_list(ps.push(p)) == ser_paste(ps[0]) + (ser_list(ps.skip(1)) + ser_paste(p)));
        assert(ser_list(ps) == ser_paste(ps[0]) + ser_list(ps.skip(1)));
        vstd::seq_lib::lemma_concat_associative(ser_paste(ps[0]), ser_list(ps.skip(1)), ser_paste(p));
    }
}

/// Law (persistence round-trip): parsing a serialized snapshot yields the
/// very collection that was saved, field for field, the never-expiration
/// sentinel included.
pub proof fn lemma_snapshot_roundtrip(ps: Seq<PastaV>)
    requires
        ps.len() <= u64::MAX,
        forall|i: int| 0 <= i < ps.len() ==> bounded_record(#[trigger] ps[i]),
    ensures
        parse_snapshot(ser_snapshot(ps)) == Some(ps),
{
    lemma_parse_num_of_ser(ps.len(), ser_list(ps));
    lemma_parse_list_of_ser(ps, Seq::<char>::empty());
    assert(ser_list(ps) + Seq::<char>::empty() =~= ser_list(ps));
}

/// The digit character for a value below ten.
fn digit_char_of(d: u64) -> (c: char)
    requires
        d < 10,
    ensures
        c == digit_char(d as nat),
{
    match d {
        0 => '0',
        1 => '1',
        2 => '2',
        3 => '3',
        4 => '4',
        5 => '5',
        6 => '6',
        7 => '7',
        8 => '8',
        _ => '9',
    }
}

/// The value of a digit character, or nothing for any other character.
fn digit_val_of(c: char) -> (r: Option<u64>)
    ensures
        match r {
            Some(d) => d < 10 && digit_val(c) == d as int,
            None => digit_val(c) < 0,
        },
{
    match c {
        '0' => Some(0),
        '1' => Some(1),
        '2' => Some(2),
        '3' => Some(3),
        '4' => Some(4),
        '5' => Some(5),
        '6' => Some(6),
        '7' => Some(7),
        '8' => Some(8),
        '9' => Some(9),
        _ => None,
    }
}

/// Append the decimal digits of a number.
fn push_digits(out: &mut Vec<char>, n: u64)
    ensures
        final(out)@ == old(out)@ + dec_chars(n as nat),
    decreases n,
{
    if n < 10 {
        let c = digit_char_of(n);
        out.push(c);
        proof {
            assert(digits_of(n as nat, 10) =~= seq![n as nat]);
            assert(dec_chars(n as nat) =~= seq![digit_char(n as nat)]);
            assert(out@ =~= old(out)@ + dec_chars(n as nat));
        }
    } else {
        push_digits(out, n / 10);
        let c = digit_char_of(n % 10);
        out.push(c);
        proof {
            assert(digits_of(n as nat, 10) == digits_of((n / 10) as nat, 10).push(
                (n % 10) as nat,
            ));
            assert(dec_chars(n as nat) =~= dec_chars((n / 10) as nat).push(
                digit_char((n % 10) as nat),
            ));
            assert(out@ =~= old(out)@ + dec_chars(n as nat));
        }
    }
}

/// Append a serialized number.
fn push_num(out: &mut Vec<char>, n: u64)
    ensures
        final(out)@ == old(out)@ + ser_num(n as nat),
{
    push_digits(out, n);
    out.push('\n');
    proof {
        assert(out@ =~= old(out)@ + ser_num(n as nat));
    }
}

/// Append a serialized string field.
#[verifier::loop_isolation(false)]
fn push_str_field(out: &mut Vec<char>, s: &str)
    ensures
        final(out)@ == old(out)@ + ser_str(s@),
{
    let len = s.unicode_len();
    push_num(out, len as u64);
    let mut i: usize = 0;
    while i < len
        invariant
            len == s@.len(),
            i <= len,
            out@ == old(out)@ + ser_num(s@.len()) + s@.take(i as int),
        decreases len - i,
    {
        out.push(s.get_char(i));
        proof {
            assert(out@ =~= old(out)@ + ser_num(s@.len()) + s@.take(i + 1 as int));
        }
        i = i + 1;
    }
    proof {
        assert(s@.take(len as int) =~= s@);
        assert(old(out)@ + ser_num(s@.len()) + s@ =~= old(out)@ + ser_str(s@));
    }
}

/// Append a stored kind keyword.
fn push_kind(out: &mut Vec<char>, k: PastaKind)
    ensures
        final(out)@ == old(out)@ + kind_chars(k),
{
    match k {
        PastaKind::Text => {
            out.push('t');
            out.push('e');
            out.push('x');
            out.push('t');
            out.push('\n');
        },
        PastaKind::Url => {
            out.push('u');
            out.push('r');
            out.push('l');
            out.push('\n');
        },
        PastaKind::File => {
            out.push('f');
            out.push('i');
            out.push('l');
            out.push('e');
            out.push('\n');
        },
    }
    proof {
        assert(out@ =~= old(out)@ + kind_chars(k));
    }
}

/// Append one serialized record.
#[verifier::rlimit(60)]
fn push_paste(out: &mut Vec<char>, p: &Pasta)
    ensures
        final(out)@ == old(out)@ + ser_paste(p@),
{
    push_num(out, p.id);
    push_num(out, p.created);
    push_num(out, p.expiration);
    push_kind(out, p.kind);
    push_str_field(out, p.content.as_str());
    push_str_field(out, p.file.as_str());
    proof {
        assert(out@ =~= old(out)@ + ser_paste(p@));
    }
}

/// Serialize the whole collection to snapshot text.
#[verifier::loop_isolation(false)]
pub fn save_snapshot(pastas: &Vec<Pasta>) -> (r: String)
    ensures
        r@ == ser_snapshot(pastas.deep_view()),
{
    let ghost dv = pastas.deep_view();
    let mut out: Vec<char> = Vec::new();
    let count = pastas.len();
    push_num(&mut out, count as u64);
    proof {
        assert(ser_list(dv.take(0)) == Seq::<char>::empty());
        assert(out@ =~= ser_num(dv.len()) + ser_list(dv.take(0)));
    }
    let mut i: usize = 0;
    while i < count
        invariant
            i <= count,
            count == dv.len(),
            dv == pastas.deep_view(),
            out@ == ser_num(dv.len()) + ser_list(dv.take(i as int)),
        decreases count - i,
    {
        push_paste(&mut out, &pastas[i]);
        proof {
            assert(pastas@[i as int]@ == dv[i as int]);
            lemma_ser_list_snoc(dv.take(i as int), dv[i as int]);
            assert(dv.take(i + 1 as int) =~= dv.take(i as int).push(dv[i as int]));
            vstd::seq_lib::lemma_concat_associative(
                ser_num(dv.len()),
                ser_list(dv.take(i as int)),
                ser_paste(dv[i as int]),
            );
        }
        i = i + 1;
    }
    proof {
        assert(dv.take(count as int) =~= dv);
    }
    string_from_chars(&out)
}

/// Where the digit run starting at `pos` ends.
#[verifier::loop_isolation(false)]
fn scan_digits(v: &Vec<char>, pos: usize) -> (k: usize)
    requires
        pos <= v@.len(),
    ensures
        pos <= k <= v@.len(),
        forall|m: int| pos <= m < k ==> digit_val(#[trigger] v@[m]) >= 0,
        k < v@.len() ==> digit_val(v@[k as int]) < 0,
        digit_prefix_len(v@.skip(pos as int)) == k - pos,
{
    let mut k: usize = pos;
    let mut done = false;
    while k < v.len() && !done
        invariant
            pos <= k <= v@.len(),
            forall|m: int| pos <= m < k ==> digit_val(#[trigger] v@[m]) >= 0,
            done ==> k < v@.len() && digit_val(v@[k as int]) < 0,
        decreases v@.len() - k, (if done { 0int } else { 1int }),
    {
        match digit_val_of(v[k]) {
            Some(_) => {
                k = k + 1;
            },
            None => {
                done = true;
            },
        }
    }
    proof {
        lemma_digit_prefix_at(v@.skip(pos as int), k - pos);
    }
    k
}

/// A run of digits followed by a non-digit, or reaching the end, is the
/// digit prefix.
proof fn lemma_digit_prefix_at(s: Seq<char>, k: int)
    requires
        0 <= k <= s.len(),
        forall|m: int| 0 <= m < k ==> digit_val(#[trigger] s[m]) >= 0,
        k == s.len() || digit_val(s[k]) < 0,
    ensures
        digit_prefix_len(s) == k,
    decreases k, s.len(),
{
    if k == 0 {
        if s.len() > 0 {
            assert(digit_val(s[0]) < 0);
        }
    } else {
        assert(digit_val(s[0]) >= 0);
        lemma_digit_prefix_at(s.skip(1), k - 1);
    }
}

/// Parse a serialized number at a position.
#[verifier::loop_isolation(false)]
fn parse_num_at(v: &Vec<char>, pos: usize) -> (r: Option<(u64, usize)>)
    requires
        pos <= v@.len(),
    ensures
        match r {
            Some(p) => pos < p.1 <= v@.len() && parse_num(v@.skip(pos as int)) == Some(
                (p.0 as nat, v@.skip(p.1 as int)),
            ),
            None => parse_num(v@.skip(pos as int)) is None,
        },
{
    proof {
        reveal(parse_num);
    }
    let ghost s = v@.skip(pos as int);
    let k = scan_digits(v, pos);
    if k == pos {
        return None;
    }
    let ghost digs = s.take((k - pos) as int).map_values(|c: char| digit_val(c) as nat);
    proof {
        assert(digs.len() == k - pos);
        assert(forall|m: int| 0 <= m < digs.len() ==> #[trigger] digs[m] < 10);
    }
    let mut acc: u64 = 0;
    let mut m: usize = pos;
    while m < k
        invariant
            pos <= m <= k,
            acc as nat == value_of(digs.take((m - pos) as int), 10),
        decreases k - m,
    {
        assert(s[m - pos] == v@[m as int]);
        assert(digs[m - pos] == digit_val(v@[m as int]) as nat);
        let d = match digit_val_of(v[m]) {
            Some(d) => d,
            None => vstd::pervasive::unreached(),
        };
        proof {
            lemma_value_step(digs, 10, m - pos);
        }
        if acc > (u64::MAX - d) / 10 {
            proof {
                vstd::arithmetic::div_mod::lemma_fundamental_div_mod((u64::MAX - d) as int, 10);
                assert(acc as nat * 10 + d as nat > u64::MAX) by (nonlinear_arith)
                    requires
                        acc as nat > ((u64::MAX - d) as nat) / 10,
                        ((u64::MAX - d) as nat) / 10 * 10 + ((u64::MAX - d) as nat) % 10 == (
                        u64::MAX - d) as nat,
                        ((u64::MAX - d) as nat) % 10 < 10,
                        d < 10,
                ;
                lemma_value_prefix_le(digs, 10, m - pos + 1);
                assert(value_of(digs, 10) > u64::MAX);
            }
            return None;
        }
        proof {
            vstd::arithmetic::div_mod::lemma_fundamental_div_mod((u64::MAX - d) as int, 10);
            assert(acc as nat * 10 + d as nat <= u64::MAX) by (nonlinear_arith)
                requires
                    acc as nat <= ((u64::MAX - d) as nat) / 10,
                    ((u64::MAX - d) as nat) / 10 * 10 <= (u64::MAX - d) as nat,
                    d as nat <= u64::MAX,
            ;
        }
        acc = acc * 10 + d;
        m = m + 1;
    }
    proof {
        assert(digs.take((k - pos) as int) =~= digs);
    }
    if k == v.len() {
        return None;
    }
    let c = v[k];
    if c != '\n' {
        proof {
            assert(s[(k - pos) as int] == v@[k as int]);
        }
        return None;
    }
    proof {
        assert(s[(k - pos) as int] == v@[k as int]);
        assert(s.skip((k - pos) as int + 1) =~= v@.skip(k + 1 as int));
    }
    Some((acc, k + 1))
}

/// Parse a serialized string at a position.
#[verifier::loop_isolation(false)]
fn parse_str_at(v: &Vec<char>, pos: usize) -> (r: Option<(String, usize)>)
    requires
        pos <= v@.len(),
    ensures
        match r {
            Some(p) => pos < p.1 <= v@.len() && parse_str(v@.skip(pos as int)) == Some(
                (p.0@, v@.skip(p.1 as int)),
            ),
            None => parse_str(v@.skip(pos as int)) is None,
        },
{
    let ghost s = v@.skip(pos as int);
    let (n, j) = match parse_num_at(v, pos) {
        Some(p) => p,
        None => {
            return None;
        },
    };
    let ghost rest = v@.skip(j as int);
    let rem = v.len() - j;
    if n > rem as u64 {
        proof {
            assert(rest.len() < n);
        }
        return None;
    }
    let n_us = n as usize;
    let mut buf: Vec<char> = Vec::new();
    let mut m: usize = j;
    while m < j + n_us
        invariant
            j <= m <= j + n_us,
            j + n_us <= v@.len(),
            buf@ == v@.subrange(j as int, m as int),
        decreases j + n_us - m,
    {
        buf.push(v[m]);
        proof {
            assert(buf@ =~= v@.subrange(j as int, m + 1 as int));
        }
        m = m + 1;
    }
    let t = string_from_chars(&buf);
    proof {
        assert(rest.take(n as int) =~= v@.subrange(j as int, (j + n_us) as int));
        assert(rest.skip(n as int) =~= v@.skip((j + n_us) as int));
    }
    Some((t, j + n_us))
}

/// Parse a stored kind keyword at a position.
fn parse_kind_at(v: &Vec<char>, pos: usize) -> (r: Option<(PastaKind, usize)>)
    requires
        pos <= v@.len(),
    ensures
        match r {
            Some(p) => pos < p.1 <= v@.len() && parse_kind(v@.skip(pos as int)) == Some(
                (p.0, v@.skip(p.1 as int)),
            ),
            None => parse_kind(v@.skip(pos as int)) is None,
        },
{
    let ghost s = v@.skip(pos as int);
    let rem = v.len() - pos;
    let is_text = rem >= 5 && v[pos] == 't' && v[pos + 1] == 'e' && v[pos + 2] == 'x' && v[pos + 3]
        == 't' && v[pos + 4] == '\n';
    if is_text {
        proof {
            assert(s.take(5) =~= kind_chars(PastaKind::Text));
            assert(s.skip(5) =~= v@.skip(pos + 5 as int));
        }
        return Some((PastaKind::Text, pos + 5));
    }
    let is_url = rem >= 4 && v[pos] == 'u' && v[pos + 1] == 'r' && v[pos + 2] == 'l' && v[pos + 3]
        == '\n';
    if is_url {
        proof {
            if s.len() >= 5 {
                assert(s.take(5)[0] == 'u');
                assert(s.take(5) != kind_chars(PastaKind::Text));
            }
            assert(s.take(4) =~= kind_chars(PastaKind::Url));
            assert(s.skip(4) =~= v@.skip(pos + 4 as int));
        }
        return Some((PastaKind::Url, pos + 4));
    }
    let is_file = rem >= 5 && v[pos] == 'f' && v[pos + 1] == 'i' && v[pos + 2] == 'l' && v[pos + 3]
        == 'e' && v[pos + 4] == '\n';
    if is_file {
        proof {
            assert(s.take(5)[0] == 'f');
            assert(s.take(5) != kind_chars(PastaKind::Text));
            assert(s.take(4)[0] == 'f');
            assert(s.take(4) != kind_chars(PastaKind::Url));
            assert(s.take(5) =~= kind_chars(PastaKind::File));
            assert(s.skip(5) =~= v@.skip(pos + 5 as int));
        }
        return Some((PastaKind::File, pos + 5));
    }
    proof {
        assert(s.len() == rem);
        if s.len() >= 5 && s.take(5) == kind_chars(PastaKind::Text) {
            assert(v@[pos as int] == s.take(5)[0]);
            assert(v@[pos + 1 as int] == s.take(5)[1]);
            assert(v@[pos + 2 as int] == s.take(5)[2]);
            assert(v@[pos + 3 as int] == s.take(5)[3]);
            assert(v@[pos + 4 as int] == s.take(5)[4]);
            assert(false);
        }
        if s.len() >= 4 && s.take(4) == kind_chars(PastaKind::Url) {
            assert(v@[pos as int] == s.take(4)[0]);
            assert(v@[pos + 1 as int] == s.take(4)[1]);
            assert(v@[pos + 2 as int] == s.take(4)[2]);
            assert(v@[pos + 3 as int] == s.take(4)[3]);
            assert(false);
        }
        if s.len() >= 5 && s.take(5) == kind_chars(PastaKind::File) {
            assert(v@[pos as int] == s.take(5)[0]);
            assert(v@[pos + 1 as int] == s.take(5)[1]);
            assert(v@[pos + 2 as int] == s.take(5)[2]);
            assert(v@[pos + 3 as int] == s.take(5)[3]);
            assert(v@[pos + 4 as int] == s.take(5)[4]);
            assert(false);
        }
    }
    None
}

/// Parse one serialized record at a position.
fn parse_paste_at(v: &Vec<char>, pos: usize) -> (r: Option<(Pasta, usize)>)
    requires
        pos <= v@.len(),
    ensures
        match r {
            Some(p) => pos < p.1 <= v@.len() && parse_paste(v@.skip(pos as int)) == Some(
                (p.0@, v@.skip(p.1 as int)),
            ),
            None => parse_paste(v@.skip(pos as int)) is None,
        },
{
    proof {
        reveal(parse_paste);
    }
    let (id, j1) = match parse_num_at(v, pos) {
        Some(p) => p,
        None => {
            return None;
        },
    };
    let (created, j2) = match parse_num_at(v, j1) {
        Some(p) => p,
        None => {
            return None;
        },
    };
    let (expiration, j3) = match parse_num_at(v, j2) {
        Some(p) => p,
        None => {
            return None;
        },
    };
    let (kind, j4) = match parse_kind_at(v, j3) {
        Some(p) => p,
        None => {
            return None;
        },
    };
    let (content, j5) = match parse_str_at(v, j4) {
        Some(p) => p,
        None => {
            return None;
        },
    };
    let (file, j6) = match parse_str_at(v, j5) {
        Some(p) => p,
        None => {
            return None;
        },
    };
    Some((Pasta { id, content, file, created, kind, expiration }, j6))
}

/// Parse a whole snapshot text back into records.
/// Fails with `PersistenceCorrupt` on any text that is not exactly a
/// serialized snapshot.
#[verifier::loop_isolation(false)]
#[verifier::rlimit(100)]
#[verifier::spinoff_prover]
pub fn load_snapshot(s: &str) -> (r: Result<Vec<Pasta>, StoreError>)
    ensures
        match r {
            Ok(ps) => parse_snapshot(s@) == Some(ps.deep_view()),
            Err(e) => e == StoreError::PersistenceCorrupt && parse_snapshot(s@) is None,
        },
{
    let v = chars_of_str(s);
    proof {
        assert(v@.skip(0) =~= s@);
    }
    let (count, start) = match parse_num_at(&v, 0) {
        Some(p) => p,
        None => {
            return Err(StoreError::PersistenceCorrupt);
        },
    };
    let ghost s0 = v@.skip(start as int);
    let mut acc: Vec<Pasta> = Vec::new();
    let mut cur: usize = start;
    let mut i: u64 = 0;
    proof {
        assert(acc.deep_view() =~= Seq::<PastaV>::empty());
        assert(Seq::<PastaV>::empty() + Seq::<PastaV>::empty() =~= Seq::<PastaV>::empty());
    }
    while i < count
        invariant
            i <= count,
            cur <= v@.len(),
            acc.deep_view().len() == i,
            parse_list(s0, count as nat) == match parse_list(
                v@.skip(cur as int),
                (count - i) as nat,
            ) {
                Some(p) => Some((acc.deep_view() + p.0, p.1)),
                None => None::<(Seq<PastaV>, Seq<char>)>,
            },
        decreases count - i,
    {
        let ghost scur = v@.skip(cur as int);
        let (p, next) = match parse_paste_at(&v, cur) {
            Some(p) => p,
            None => {
                return Err(StoreError::PersistenceCorrupt);
            },
        };
        let ghost prev_acc = acc.deep_view();
        let ghost pv = p@;
        acc.push(p);
        proof {
            assert(acc.deep_view() =~= prev_acc.push(pv));
            let rec = parse_list(v@.skip(next as int), (count - i - 1) as nat);
            match rec {
                Some(q) => {
                    assert(parse_list(scur, (count - i) as nat) == Some(
                        (seq![pv] + q.0, q.1),
                    ));
                    assert(prev_acc + (seq![pv] + q.0) =~= prev_acc.push(pv) + q.0);
                },
                None => {
                    assert(parse_list(scur, (count - i) as nat) is None);
                },
            }
        }
        cur = next;
        i = i + 1;
    }
    proof {
        assert(parse_list(v@.skip(cur as int), 0) == Some(
            (Seq::<PastaV>::empty(), v@.skip(cur as int)),
        ));
        assert(acc.deep_view() + Seq::<PastaV>::empty() =~= acc.deep_view());
    }
    if cur != v.len() {
        proof {
            assert(v@.skip(cur as int).len() > 0);
        }
        return Err(StoreError::PersistenceCorrupt);
    }
    proof {
        assert(v@.skip(cur as int).len() == 0);
    }
    Ok(acc)
}

impl PastaStore {
    /// The snapshot text of the store's collection, written by the caller
    /// to durable storage after every mutation.
    pub fn snapshot(&self) -> (r: String)
        ensures
            r@ == ser_snapshot(self@),
    {
        save_snapshot(&self.pastas)
    }
}

} // verus!
