//! The depth-of-book (LOB) parser: reads the book entries of FIX market-data
//! messages (snapshot `35=W`, incremental refresh `35=X`) and applies them to
//! the order book.

use vstd::prelude::*;
use vstd::string::StringSliceAdditionalSpecFns;
use crate::decimal::{decimal_bytes, fixed_bytes, parse_exact_fixed, parse_exact_fixed_spec, parse_fixed, parse_fixed_spec};
use crate::fix_engine::field;
use crate::scan::{append_bytes, contains, find, find_bytes, find_from, lemma_find_from_skip, matches_at, split_pieces};
use crate::state::{apply_entry, lemma_remove_keeps_order, lemma_update_keeps_order, levels_ordered, Level, OrderBook};

verus! {

/// A book entry read from a message: (MDUpdateAction, MDEntryType, price,
/// volume), prices and volumes in fixed point.
pub type BookEntry = (char, char, i64, i64);

/// Bytes that end a field value: SOH, '|' and NUL.
pub open spec fn is_value_end(b: u8) -> bool {
    b == 1 || b == 124 || b == 0
}

/// Length of the field value that `s` starts with.
pub open spec fn value_len(s: Seq<u8>) -> nat
    decreases s.len(),
{
    if s.len() == 0 || is_value_end(s[0]) {
        0
    } else {
        1 + value_len(s.drop_first())
    }
}

/// The text of the first `tag=` field's value in `fragment`: what follows
/// the first occurrence of `tag=`, up to the next SOH, '|' or NUL.
pub open spec fn tag_value_text(fragment: Seq<u8>, tag: Seq<u8>) -> Option<Seq<u8>> {
    let pat = tag.push(61u8);
    match find(fragment, pat) {
        None => None,
        Some(pos) => {
            let sub = fragment.skip((pos + pat.len()) as int);
            Some(sub.take(value_len(sub) as int))
        },
    }
}

/// The value of the first `tag=` field in `fragment` (see `tag_value_text`),
/// read as a fixed-point number.
pub open spec fn extract_tag_spec(fragment: Seq<u8>, tag: Seq<u8>) -> Option<int> {
    match tag_value_text(fragment, tag) {
        None => None,
        Some(v) => parse_fixed_spec(v),
    }
}

/// The value of the first `tag=` field in `fragment` when the fixed-point
/// number is exactly what the text spells (see `parse_exact_fixed_spec`).
pub open spec fn extract_exact_tag_spec(fragment: Seq<u8>, tag: Seq<u8>) -> Option<int> {
    match tag_value_text(fragment, tag) {
        None => None,
        Some(v) => parse_exact_fixed_spec(v),
    }
}

pub open spec fn tag_md_entry_type() -> Seq<u8> {
    seq![50u8, 54u8, 57u8]
}

pub open spec fn tag_md_entry_px() -> Seq<u8> {
    seq![50u8, 55u8, 48u8]
}

pub open spec fn tag_md_entry_size() -> Seq<u8> {
    seq![50u8, 55u8, 49u8]
}

pub open spec fn tag_md_update_action() -> Seq<u8> {
    seq![50u8, 55u8, 57u8]
}

/// The book entry that one fragment of a message yields: a positive price
/// (tag 270) and an entry type (269) of exactly 0 (bid) or 1 (offer), with
/// no other digit beyond the fifth decimal, are needed. The action (279) is '2' (delete) when its value truncated toward
/// zero is 2, '0' (new) when that is 0 or the tag is missing, '1' (change)
/// otherwise; a missing size (271) counts as 0.
pub open spec fn entry_of_fragment(frag: Seq<u8>) -> Option<BookEntry> {
    let side = extract_exact_tag_spec(frag, tag_md_entry_type());
    let price = extract_tag_spec(frag, tag_md_entry_px());
    let volume = extract_tag_spec(frag, tag_md_entry_size());
    let action = extract_tag_spec(frag, tag_md_update_action());
    match (price, side) {
        (Some(p), Some(s)) => if p > 0 && (s == 0 || s == 100000) {
            let a = match action {
                Some(a) => a,
                None => 0,
            };
            let act = if 200000 <= a <= 299999 {
                '2'
            } else if -99999 <= a <= 99999 {
                '0'
            } else {
                '1'
            };
            let v = match volume {
                Some(v) => v,
                None => 0,
            };
            Some((act, if s == 0 { '0' } else { '1' }, p as i64, v as i64))
        } else {
            None
        },
        _ => None,
    }
}

pub open spec fn option_entries(e: Option<BookEntry>) -> Seq<BookEntry> {
    match e {
        Some(x) => seq![x],
        None => seq![],
    }
}

/// The entries of the pieces, each read with the separator put back in
/// front of it.
pub open spec fn pieces_entries(pieces: Seq<Seq<u8>>, sep: Seq<u8>) -> Seq<BookEntry>
    decreases pieces.len(),
{
    if pieces.len() == 0 {
        seq![]
    } else {
        option_entries(entry_of_fragment(sep + pieces[0])) + pieces_entries(pieces.drop_first(), sep)
    }
}

/// "55=" followed by the symbol.
pub open spec fn symbol_pattern(symbol: Seq<u8>) -> Seq<u8> {
    seq![53u8, 53u8, 61u8] + symbol
}

/// "35=W": a full snapshot.
pub open spec fn snapshot_pattern() -> Seq<u8> {
    seq![51u8, 53u8, 61u8, 87u8]
}

/// The separator between the entries of a message: "269=" in a snapshot,
/// "279=" otherwise.
pub open spec fn entry_separator(msg: Seq<u8>) -> Seq<u8> {
    if contains(msg, snapshot_pattern()) {
        seq![50u8, 54u8, 57u8, 61u8]
    } else {
        seq![50u8, 55u8, 57u8, 61u8]
    }
}

/// Whether `pat` stands at index `i` of `msg` as a whole field: it starts
/// the message or follows a byte that ends a field value, and the message
/// ends or a field value ends right after it.
pub open spec fn field_at(msg: Seq<u8>, pat: Seq<u8>, i: int) -> bool {
    &&& matches_at(msg, pat, i)
    &&& (i == 0 || is_value_end(msg[i - 1]))
    &&& (i + pat.len() == msg.len() || is_value_end(msg[i + pat.len()]))
}

/// Whether the message holds a field 55 (Symbol) whose value is exactly
/// `symbol`.
pub open spec fn names_symbol(msg: Seq<u8>, symbol: Seq<u8>) -> bool {
    exists|i: int| #[trigger] field_at(msg, symbol_pattern(symbol), i)
}

/// The book entries of one message: none unless it names the symbol (a
/// field `55=<symbol>`, see `names_symbol`); otherwise those of each piece
/// after the first when the message is split on the entry separator.
pub open spec fn lob_entries(msg: Seq<u8>, symbol: Seq<u8>) -> Seq<BookEntry> {
    if !names_symbol(msg, symbol) {
        seq![]
    } else {
        let sep = entry_separator(msg);
        pieces_entries(split_pieces(msg, sep).drop_first(), sep)
    }
}

/// The sides after applying the entries in order.
pub open spec fn apply_entries(bids: Seq<Level>, asks: Seq<Level>, entries: Seq<BookEntry>) -> (Seq<Level>, Seq<Level>)
    decreases entries.len(),
{
    if entries.len() == 0 {
        (bids, asks)
    } else {
        let (b, a) = apply_entries(bids, asks, entries.drop_last());
        let e = entries.last();
        apply_entry(b, a, e.0, e.1, e.2, e.3)
    }
}

proof fn lemma_value_len(s: Seq<u8>, k: int)
    requires
        0 <= k <= s.len(),
        forall|i: int| 0 <= i < k ==> !is_value_end(#[trigger] s[i]),
        k == s.len() || is_value_end(s[k]),
    ensures
        value_len(s) == k,
    decreases k,
{
    if k > 0 {
        let t = s.drop_first();
        assert forall|i: int| 0 <= i < k - 1 implies !is_value_end(#[trigger] t[i]) by {
            assert(t[i] == s[i + 1]);
        }
        if k < s.len() {
            assert(t[k - 1] == s[k]);
        }
        lemma_value_len(t, k - 1);
    }
}

/// Where the value of the first `tag=` field of `frag` stands (see
/// `tag_value_text`).
fn tag_value_range(frag: &[u8], tag: &[u8]) -> (r: Option<(usize, usize)>)
    ensures
        match tag_value_text(frag@, tag@) {
            None => r is None,
            Some(v) => r matches Some(p) && p.0 <= p.1 <= frag@.len() && v == frag@.subrange(
                p.0 as int,
                p.1 as int,
            ),
        },
{
    let mut pat: Vec<u8> = Vec::new();
    append_bytes(&mut pat, tag);
    pat.push(61u8);
    assert(pat@ =~= tag@.push(61u8));
    let pat_slice = pat.as_slice();
    assert(pat_slice@ == pat@);
    let found = find_bytes(frag, pat_slice, 0);
    proof {
        crate::scan::lemma_find_from(frag@, pat@, 0);
    }
    match found {
        None => None,
        Some(pos) => {
            assert(find_from(frag@, pat@, 0) == Some(pos as nat));
            assert(crate::scan::matches_at(frag@, pat@, pos as int));
            let n = frag.len();
            assert(pos + pat@.len() <= n);
            let start = pos + pat.len();
            let mut end = start;
            while end < frag.len() && !(frag[end] == 1 || frag[end] == 124 || frag[end] == 0)
                invariant
                    start <= end <= frag@.len(),
                    forall|i: int| start <= i < end ==> !is_value_end(#[trigger] frag@[i]),
                decreases frag.len() - end,
            {
                end += 1;
            }
            let ghost sub = frag@.skip(start as int);
            proof {
                assert forall|i: int| 0 <= i < end - start implies !is_value_end(#[trigger] sub[i]) by {
                    assert(sub[i] == frag@[start + i]);
                }
                if end < frag.len() {
                    assert(sub[end - start] == frag@[end as int]);
                }
                lemma_value_len(sub, end - start);
                assert(sub.take(end - start) =~= frag@.subrange(start as int, end as int));
            }
            Some((start, end))
        },
    }
}

/// The value of the first `tag=` field of `frag` (see `extract_tag_spec`).
fn extract_tag_bytes(frag: &[u8], tag: &[u8]) -> (r: Option<i64>)
    ensures
        match extract_tag_spec(frag@, tag@) {
            Some(v) => r == Some(v as i64),
            None => r is None,
        },
{
    match tag_value_range(frag, tag) {
        None => None,
        Some((start, end)) => parse_fixed(vstd::slice::slice_subrange(frag, start, end)),
    }
}

/// The exact value of the first `tag=` field of `frag` (see
/// `extract_exact_tag_spec`).
fn extract_exact_tag_bytes(frag: &[u8], tag: &[u8]) -> (r: Option<i64>)
    ensures
        match extract_exact_tag_spec(frag@, tag@) {
            Some(v) => r == Some(v as i64),
            None => r is None,
        },
{
    match tag_value_range(frag, tag) {
        None => None,
        Some((start, end)) => parse_exact_fixed(vstd::slice::slice_subrange(frag, start, end)),
    }
}

/// The fixed-point value of the first `tag=` field of `fragment`
/// (see `extract_tag_spec`).
pub fn extract_tag_fast(fragment: &str, tag: &str) -> (r: Option<i64>)
    ensures
        match extract_tag_spec(fragment.spec_bytes(), tag.spec_bytes()) {
            Some(v) => r == Some(v as i64),
            None => r is None,
        },
{
    extract_tag_bytes(fragment.as_bytes(), tag.as_bytes())
}

/// Reads a three-digit tag's value from `frag`.
fn extract_tag3(frag: &[u8], a: u8, b: u8, c: u8) -> (r: Option<i64>)
    ensures
        match extract_tag_spec(frag@, seq![a, b, c]) {
            Some(v) => r == Some(v as i64),
            None => r is None,
        },
{
    let mut tag: Vec<u8> = Vec::new();
    tag.push(a);
    tag.push(b);
    tag.push(c);
    assert(tag@ =~= seq![a, b, c]);
    extract_tag_bytes(frag, tag.as_slice())
}

/// Reads a three-digit tag's exact value from `frag`.
fn extract_exact_tag3(frag: &[u8], a: u8, b: u8, c: u8) -> (r: Option<i64>)
    ensures
        match extract_exact_tag_spec(frag@, seq![a, b, c]) {
            Some(v) => r == Some(v as i64),
            None => r is None,
        },
{
    let mut tag: Vec<u8> = Vec::new();
    tag.push(a);
    tag.push(b);
    tag.push(c);
    assert(tag@ =~= seq![a, b, c]);
    extract_exact_tag_bytes(frag, tag.as_slice())
}

/// The book entry of one fragment (see `entry_of_fragment`).
fn fragment_entry(frag: &[u8]) -> (r: Option<BookEntry>)
    ensures
        r == entry_of_fragment(frag@),
{
    let side = extract_exact_tag3(frag, 50, 54, 57);
    let price = extract_tag3(frag, 50, 55, 48);
    let volume = extract_tag3(frag, 50, 55, 49);
    let action = extract_tag3(frag, 50, 55, 57);
    match (price, side) {
        (Some(p), Some(s)) => {
            if p > 0 && (s == 0 || s == 100000) {
                let side_char = if s == 0 { '0' } else { '1' };
                let a: i64 = match action {
                    Some(a) => a,
                    None => 0,
                };
                let act = if 200000 <= a && a <= 299999 {
                    '2'
                } else if -99999 <= a && a <= 99999 {
                    '0'
                } else {
                    '1'
                };
                let v: i64 = match volume {
                    Some(v) => v,
                    None => 0,
                };
                Some((act, side_char, p, v))
            } else {
                None
            }
        },
        _ => None,
    }
}

/// A copy of the separator followed by `m[from..to]`.
fn fragment_bytes(sep: &[u8], m: &[u8], from: usize, to: usize) -> (out: Vec<u8>)
    requires
        from <= to <= m@.len(),
    ensures
        out@ == sep@ + m@.subrange(from as int, to as int),
{
    let mut out: Vec<u8> = Vec::new();
    append_bytes(&mut out, sep);
    append_bytes(&mut out, vstd::slice::slice_subrange(m, from, to));
    out
}

/// Whether `pat` stands somewhere in `m` as a whole field (see `field_at`).
fn has_field(m: &[u8], pat: &[u8]) -> (r: bool)
    requires
        pat@.len() > 0,
    ensures
        r == exists|i: int| #[trigger] field_at(m@, pat@, i),
{
    let n = m.len();
    let mut pos: usize = 0;
    loop
        invariant
            n == m@.len(),
            pat@.len() > 0,
            pos <= n + 1,
            forall|i: int| 0 <= i < pos ==> !#[trigger] field_at(m@, pat@, i),
        decreases n + 1 - pos,
    {
        let found = find_bytes(m, pat, pos);
        proof {
            crate::scan::lemma_find_from(m@, pat@, pos as nat);
        }
        match found {
            None => {
                assert forall|i: int| !#[trigger] field_at(m@, pat@, i) by {
                    if pos <= i {
                        assert(!matches_at(m@, pat@, i));
                    }
                }
                return false;
            },
            Some(j) => {
                assert(matches_at(m@, pat@, j as int));
                let end = j + pat.len();
                let before = j == 0 || m[j - 1] == 1 || m[j - 1] == 124 || m[j - 1] == 0;
                let after = end == n || m[end] == 1 || m[end] == 124 || m[end] == 0;
                if before && after {
                    assert(field_at(m@, pat@, j as int));
                    return true;
                }
                assert forall|i: int| 0 <= i < j + 1 implies !#[trigger] field_at(m@, pat@, i) by {
                    if pos <= i < j {
                        assert(!matches_at(m@, pat@, i));
                    }
                }
                pos = j + 1;
            },
        }
    }
}

/// Applies the book entries of one message (see `lob_entries`) to the book.
fn process_lob_bytes(m: &[u8], order_book: &mut OrderBook, symbol: &[u8])
    ensures
        (final(order_book).bids@, final(order_book).asks@) == apply_entries(
            old(order_book).bids@,
            old(order_book).asks@,
            lob_entries(m@, symbol@),
        ),
        lob_entries(m@, symbol@).len() == 0 ==> final(order_book).last_update == old(order_book).last_update,
{
    let n = m.len();
    let mut sym_pat: Vec<u8> = Vec::new();
    sym_pat.push(53u8);
    sym_pat.push(53u8);
    sym_pat.push(61u8);
    append_bytes(&mut sym_pat, symbol);
    assert(sym_pat@ =~= symbol_pattern(symbol@));
    let sym_slice = sym_pat.as_slice();
    assert(sym_slice@ == sym_pat@);
    if !has_field(m, sym_slice) {
        return;
    }
    let mut snap: Vec<u8> = Vec::new();
    snap.push(51u8);
    snap.push(53u8);
    snap.push(61u8);
    snap.push(87u8);
    assert(snap@ =~= snapshot_pattern());
    let snap_slice = snap.as_slice();
    assert(snap_slice@ == snap@);
    let is_snapshot = find_bytes(m, snap_slice, 0).is_some();
    let mut sep: Vec<u8> = Vec::new();
    sep.push(50u8);
    if is_snapshot {
        sep.push(54u8);
    } else {
        sep.push(55u8);
    }
    sep.push(57u8);
    sep.push(61u8);
    let sep_slice = sep.as_slice();
    assert(sep_slice@ == sep@);
    assert(sep@ =~= entry_separator(m@));
    let ghost sepv = sep@;
    let ghost total = lob_entries(m@, symbol@);
    let first = find_bytes(m, sep_slice, 0);
    proof {
        crate::scan::lemma_find_from(m@, sepv, 0);
    }
    let mut pos: usize = match first {
        None => {
            assert(split_pieces(m@, sepv) =~= seq![m@]);
            assert(total =~= seq![]);
            return;
        },
        Some(j) => j + 4,
    };
    let ghost mut done: Seq<BookEntry> = seq![];
    assert(split_pieces(m@, sepv).drop_first() =~= split_pieces(m@.skip(pos as int), sepv));
    loop
        invariant
            n == m@.len(),
            pos <= n,
            sepv == sep_slice@,
            sepv.len() == 4,
            total == lob_entries(m@, symbol@),
            done + pieces_entries(split_pieces(m@.skip(pos as int), sepv), sepv) == total,
            (order_book.bids@, order_book.asks@) == apply_entries(
                old(order_book).bids@,
                old(order_book).asks@,
                done,
            ),
            done.len() == 0 ==> order_book.last_update == old(order_book).last_update,
        decreases n - pos,
    {
        let next = find_bytes(m, sep_slice, pos);
        let ghost r = m@.skip(pos as int);
        proof {
            lemma_find_from_skip(m@, sepv, pos as nat, pos as nat);
            crate::scan::lemma_find_from(r, sepv, 0);
        }
        let end = match next {
            Some(j) => j,
            None => n,
        };
        proof {
            if let Some(j) = next {
                assert(find(r, sepv) == Some((j - pos) as nat));
                assert(r.take(j - pos) =~= m@.subrange(pos as int, j as int));
                assert(r.skip(j - pos + 4) =~= m@.skip(j + 4));
            } else {
                assert(find(r, sepv) is None);
                assert(r =~= m@.subrange(pos as int, n as int));
            }
        }
        let frag = fragment_bytes(sep_slice, m, pos, end);
        let entry = fragment_entry(frag.as_slice());
        let ghost rest_pieces = split_pieces(m@.skip(pos as int), sepv);
        assert(rest_pieces[0] == m@.subrange(pos as int, end as int));
        if let Some(e) = entry {
            order_book.update_from_fix(e.0, e.1, e.2, e.3);
            proof {
                assert(done.push(e).drop_last() =~= done);
                done = done.push(e);
            }
        }
        proof {
            assert(pieces_entries(rest_pieces, sepv) == option_entries(entry) + pieces_entries(rest_pieces.drop_first(), sepv));
        }
        match next {
            None => {
                assert(rest_pieces.drop_first() =~= seq![]);
                assert(done =~= total);
                return;
            },
            Some(j) => {
                assert(rest_pieces.drop_first() =~= split_pieces(m@.skip(j + 4), sepv));
                assert(done + pieces_entries(split_pieces(m@.skip(j + 4), sepv), sepv) =~= total);
                pos = j + 4;
            },
        }
    }
}

/// Applies the book entries of one FIX message to the book, when the
/// message names `target_symbol` (see `lob_entries`).
pub fn process_lob_fast(msg: &str, order_book: &mut OrderBook, target_symbol: &str)
    ensures
        (final(order_book).bids@, final(order_book).asks@) == apply_entries(
            old(order_book).bids@,
            old(order_book).asks@,
            lob_entries(msg.spec_bytes(), target_symbol.spec_bytes()),
        ),
        lob_entries(msg.spec_bytes(), target_symbol.spec_bytes()).len() == 0
            ==> final(order_book).last_update == old(order_book).last_update,
{
    process_lob_bytes(msg.as_bytes(), order_book, target_symbol.as_bytes());
}

/// Applying two runs of entries one after the other is applying their
/// concatenation.
pub proof fn lemma_apply_entries_concat(
    bids: Seq<Level>,
    asks: Seq<Level>,
    e1: Seq<BookEntry>,
    e2: Seq<BookEntry>,
)
    ensures
        apply_entries(bids, asks, e1 + e2) == ({
            let (b, a) = apply_entries(bids, asks, e1);
            apply_entries(b, a, e2)
        }),
    decreases e2.len(),
{
    if e2.len() == 0 {
        assert(e1 + e2 =~= e1);
    } else {
        assert((e1 + e2).drop_last() =~= e1 + e2.drop_last());
        lemma_apply_entries_concat(bids, asks, e1, e2.drop_last());
    }
}

/// "8=FIX.4.4", which starts every FIX 4.4 message.
pub open spec fn begin_string_pattern() -> Seq<u8> {
    seq![56u8, 61u8, 70u8, 73u8, 88u8, 46u8, 52u8, 46u8, 52u8]
}

/// The book entries of the messages in a burst, each non-empty piece
/// between occurrences of "8=FIX.4.4" read as one message.
pub open spec fn burst_entries(pieces: Seq<Seq<u8>>, symbol: Seq<u8>) -> Seq<BookEntry>
    decreases pieces.len(),
{
    if pieces.len() == 0 {
        seq![]
    } else {
        (if pieces[0].len() == 0 {
            seq![]
        } else {
            lob_entries(pieces[0], symbol)
        }) + burst_entries(pieces.drop_first(), symbol)
    }
}

/// Applies every FIX message of a burst read from the quote session to the
/// book (see `burst_entries`).
pub fn process_quote_data(data: &str, order_book: &mut OrderBook, target_symbol: &str)
    ensures
        (final(order_book).bids@, final(order_book).asks@) == apply_entries(
            old(order_book).bids@,
            old(order_book).asks@,
            burst_entries(
                split_pieces(data.spec_bytes(), begin_string_pattern()),
                target_symbol.spec_bytes(),
            ),
        ),
        burst_entries(split_pieces(data.spec_bytes(), begin_string_pattern()), target_symbol.spec_bytes()).len()
            == 0 ==> final(order_book).last_update == old(order_book).last_update,
{
    let m = data.as_bytes();
    let symbol = target_symbol.as_bytes();
    let n = m.len();
    let mut pat: Vec<u8> = Vec::new();
    pat.push(56u8);
    pat.push(61u8);
    pat.push(70u8);
    pat.push(73u8);
    pat.push(88u8);
    pat.push(46u8);
    pat.push(52u8);
    pat.push(46u8);
    pat.push(52u8);
    assert(pat@ =~= begin_string_pattern());
    let pat_slice = pat.as_slice();
    assert(pat_slice@ == pat@);
    let ghost patv = pat@;
    let ghost total = burst_entries(split_pieces(m@, patv), symbol@);
    let ghost mut done: Seq<BookEntry> = seq![];
    let mut pos: usize = 0;
    assert(m@.skip(0) =~= m@);
    loop
        invariant
            n == m@.len(),
            pos <= n,
            patv == pat_slice@,
            patv.len() == 9,
            patv == begin_string_pattern(),
            m@ == data.spec_bytes(),
            symbol@ == target_symbol.spec_bytes(),
            total == burst_entries(split_pieces(m@, patv), symbol@),
            done + burst_entries(split_pieces(m@.skip(pos as int), patv), symbol@) == total,
            (order_book.bids@, order_book.asks@) == apply_entries(
                old(order_book).bids@,
                old(order_book).asks@,
                done,
            ),
            done.len() == 0 ==> order_book.last_update == old(order_book).last_update,
        decreases n - pos,
    {
        let next = find_bytes(m, pat_slice, pos);
        let ghost r = m@.skip(pos as int);
        proof {
            lemma_find_from_skip(m@, patv, pos as nat, pos as nat);
            crate::scan::lemma_find_from(r, patv, 0);
        }
        let end = match next {
            Some(j) => j,
            None => n,
        };
        proof {
            if let Some(j) = next {
                assert(find(r, patv) == Some((j - pos) as nat));
                assert(r.take(j - pos) =~= m@.subrange(pos as int, j as int));
                assert(r.skip(j - pos + 9) =~= m@.skip(j + 9));
            } else {
                assert(find(r, patv) is None);
                assert(r =~= m@.subrange(pos as int, n as int));
            }
        }
        let ghost pieces = split_pieces(r, patv);
        assert(pieces[0] == m@.subrange(pos as int, end as int));
        let ghost here: Seq<BookEntry> = if end == pos { seq![] } else { lob_entries(pieces[0], symbol@) };
        if end > pos {
            let piece = vstd::slice::slice_subrange(m, pos, end);
            process_lob_bytes(piece, order_book, symbol);
            proof {
                lemma_apply_entries_concat(old(order_book).bids@, old(order_book).asks@, done, here);
            }
        } else {
            assert(done + here =~= done);
        }
        proof {
            done = done + here;
            assert(burst_entries(pieces, symbol@) == here + burst_entries(pieces.drop_first(), symbol@));
        }
        match next {
            None => {
                assert(pieces.drop_first() =~= seq![]);
                assert(done =~= total);
                return;
            },
            Some(j) => {
                assert(pieces.drop_first() =~= split_pieces(m@.skip(j + 9), patv));
                assert(done + burst_entries(split_pieces(m@.skip(j + 9), patv), symbol@) =~= total);
                pos = j + 9;
            },
        }
    }
}

/// No byte of a fixed-point text ends a field value.
proof fn lemma_fixed_bytes_no_value_end(v: int)
    ensures
        forall|i: int| 0 <= i < fixed_bytes(v).len() ==> !is_value_end(#[trigger] fixed_bytes(v)[i]),
{
    let m: nat = if v < 0 { (-v) as nat } else { v as nat };
    let d = decimal_bytes(m / 100000);
    let f = crate::decimal::fraction_bytes(m % 100000);
    crate::decimal::lemma_decimal_bytes(m / 100000);
    crate::decimal::lemma_fraction_bytes(m % 100000);
    let u = crate::decimal::unsigned_fixed_bytes(m);
    assert forall|i: int| 0 <= i < u.len() implies !is_value_end(#[trigger] u[i]) by {
        if i < d.len() {
            assert(u[i] == d[i]);
        } else if i > d.len() {
            assert(u[i] == f[i - d.len() - 1]);
        }
    }
    if v < 0 {
        assert forall|i: int| 0 <= i < fixed_bytes(v).len() implies !is_value_end(#[trigger] fixed_bytes(v)[i]) by {
            if i > 0 {
                assert(fixed_bytes(v)[i] == u[i - 1]);
            }
        }
    }
}

/// A fixed-point value written as the first field of a fragment, as the
/// order builders write prices, is what the quote parser reads for that
/// tag.
pub proof fn lemma_field_value_read_back(tag: nat, v: int, rest: Seq<u8>)
    requires
        i64::MIN <= v <= i64::MAX,
    ensures
        extract_tag_spec(field(tag, fixed_bytes(v)) + rest, decimal_bytes(tag)) == Some(v),
{
    let val = fixed_bytes(v);
    let frag = field(tag, val) + rest;
    let pat = decimal_bytes(tag).push(61u8);
    assert(frag.subrange(0, pat.len() as int) =~= pat);
    crate::scan::lemma_find_from_first(frag, pat, 0, 0);
    let sub = frag.skip(pat.len() as int);
    assert(sub =~= val + seq![1u8] + rest);
    lemma_fixed_bytes_no_value_end(v);
    assert forall|i: int| 0 <= i < val.len() implies !is_value_end(#[trigger] sub[i]) by {
        assert(sub[i] == val[i]);
    }
    assert(sub[val.len() as int] == 1u8);
    lemma_value_len(sub, val.len() as int);
    assert(sub.take(val.len() as int) =~= val);
    crate::decimal::lemma_fixed_roundtrip(v);
}

/// The entries of pieces with one more piece at the end: those of the
/// pieces, then that piece's entry.
proof fn lemma_pieces_entries_push(pieces: Seq<Seq<u8>>, f: Seq<u8>, sep: Seq<u8>)
    ensures
        pieces_entries(pieces.push(f), sep) == pieces_entries(pieces, sep) + option_entries(
            entry_of_fragment(sep + f),
        ),
    decreases pieces.len(),
{
    if pieces.len() == 0 {
        let one = pieces.push(f);
        assert(one.drop_first() =~= Seq::<Seq<u8>>::empty());
        assert(one[0] == f);
        assert(pieces_entries(one.drop_first(), sep) == Seq::<BookEntry>::empty());
        assert(pieces_entries(one, sep) == option_entries(entry_of_fragment(sep + f)) + Seq::<BookEntry>::empty());
        assert(pieces_entries(one, sep) =~= option_entries(entry_of_fragment(sep + f)));
        assert(pieces_entries(pieces, sep) == Seq::<BookEntry>::empty());
    } else {
        assert(pieces.push(f).drop_first() =~= pieces.drop_first().push(f));
        assert(pieces.push(f)[0] == pieces[0]);
        lemma_pieces_entries_push(pieces.drop_first(), f, sep);
        assert(pieces_entries(pieces.push(f), sep) =~= pieces_entries(pieces, sep) + option_entries(
            entry_of_fragment(sep + f),
        ));
    }
}

/// A message that names the symbol, split on its entry separator `sep`,
/// with one more piece `sep` + `f` at the end, gives its entries and then
/// that piece's.
proof fn lemma_lob_entries_append(m: Seq<u8>, f: Seq<u8>, symbol: Seq<u8>, sep: Seq<u8>)
    requires
        names_symbol(m, symbol),
        names_symbol(m + sep + f, symbol),
        entry_separator(m) == sep,
        entry_separator(m + sep + f) == sep,
        sep.len() == 4,
        forall|d: int| 0 < d < sep.len() ==> #[trigger] sep[d] != sep[0],
        !contains(f, sep),
    ensures
        lob_entries(m + sep + f, symbol) == lob_entries(m, symbol) + option_entries(entry_of_fragment(sep + f)),
{
    crate::scan::lemma_split_pieces_append(m, sep, f);
    let p = split_pieces(m, sep);
    assert(p.len() > 0) by {
        crate::scan::lemma_find_from(m, sep, 0);
    }
    assert((p + seq![f]).drop_first() =~= p.drop_first().push(f));
    lemma_pieces_entries_push(p.drop_first(), f, sep);
}

/// In an incremental refresh (no "35=W"), each entry is read from its own
/// piece after "279=" and keeps its own action: appending a piece "279=..."
/// (with no further "279=") to a message that names the symbol appends
/// exactly that piece's entry, whatever came before it.
pub proof fn lemma_incremental_entry_appended(m: Seq<u8>, f: Seq<u8>, symbol: Seq<u8>)
    requires
        names_symbol(m, symbol),
        names_symbol(m + seq![50u8, 55u8, 57u8, 61u8] + f, symbol),
        !contains(m + seq![50u8, 55u8, 57u8, 61u8] + f, snapshot_pattern()),
        !contains(f, seq![50u8, 55u8, 57u8, 61u8]),
    ensures
        lob_entries(m + seq![50u8, 55u8, 57u8, 61u8] + f, symbol) == lob_entries(m, symbol) + option_entries(
            entry_of_fragment(seq![50u8, 55u8, 57u8, 61u8] + f),
        ),
{
    let sep = seq![50u8, 55u8, 57u8, 61u8];
    assert(m + sep + f =~= m + (sep + f));
    if contains(m, snapshot_pattern()) {
        crate::scan::lemma_contains_extend(m, sep + f, snapshot_pattern());
    }
    lemma_lob_entries_append(m, f, symbol, sep);
}

/// In a snapshot ("35=W"), each entry is read from its own piece after
/// "269=": appending a piece "269=..." (with no further "269=") to a
/// snapshot that names the symbol appends exactly that piece's entry.
pub proof fn lemma_snapshot_entry_appended(m: Seq<u8>, f: Seq<u8>, symbol: Seq<u8>)
    requires
        names_symbol(m, symbol),
        names_symbol(m + seq![50u8, 54u8, 57u8, 61u8] + f, symbol),
        contains(m, snapshot_pattern()),
        !contains(f, seq![50u8, 54u8, 57u8, 61u8]),
    ensures
        lob_entries(m + seq![50u8, 54u8, 57u8, 61u8] + f, symbol) == lob_entries(m, symbol) + option_entries(
            entry_of_fragment(seq![50u8, 54u8, 57u8, 61u8] + f),
        ),
{
    let sep = seq![50u8, 54u8, 57u8, 61u8];
    assert(m + sep + f =~= m + (sep + f));
    crate::scan::lemma_contains_extend(m, sep + f, snapshot_pattern());
    lemma_lob_entries_append(m, f, symbol, sep);
}

/// A message without a field 55 whose value is exactly the symbol leaves
/// the book as it was.
pub proof fn lemma_other_symbol_ignored(msg: Seq<u8>, symbol: Seq<u8>, bids: Seq<Level>, asks: Seq<Level>)
    requires
        !names_symbol(msg, symbol),
    ensures
        apply_entries(bids, asks, lob_entries(msg, symbol)) == (bids, asks),
{
}

/// Both sides hold five levels, each strictly ranked: bids from the highest
/// price down, asks from the lowest up.
pub open spec fn book_ordered(bids: Seq<Level>, asks: Seq<Level>) -> bool {
    bids.len() == 5 && asks.len() == 5 && levels_ordered(bids, true) && levels_ordered(asks, false)
}

/// Every run of book entries keeps both sides strictly ranked.
pub proof fn lemma_entries_keep_book_ordered(bids: Seq<Level>, asks: Seq<Level>, entries: Seq<BookEntry>)
    requires
        book_ordered(bids, asks),
    ensures
        book_ordered(apply_entries(bids, asks, entries).0, apply_entries(bids, asks, entries).1),
    decreases entries.len(),
{
    if entries.len() > 0 {
        lemma_entries_keep_book_ordered(bids, asks, entries.drop_last());
        let (b, a) = apply_entries(bids, asks, entries.drop_last());
        let e = entries.last();
        if e.1 == '0' {
            if e.0 == '2' {
                lemma_remove_keeps_order(b, e.2, true);
            } else {
                lemma_update_keeps_order(b, e.2, e.3, true);
            }
        } else {
            if e.0 == '2' {
                lemma_remove_keeps_order(a, e.2, false);
            } else {
                lemma_update_keeps_order(a, e.2, e.3, false);
            }
        }
    }
}

} // verus!
