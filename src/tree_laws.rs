//! Laws of the tree wire format and its decoder.
use vstd::prelude::*;
use crate::error::Error;
use crate::oid::OID_LEN;
use crate::tree::{
    decode_items, encode_entries, encode_entry, first_index, kind_of_mode, mode_token, parse_entry,
    valid_entry, EntryKind, EntryModel, has_slash,
};

verus! {

/// A search finds the first occurrence: the position holds the byte and no earlier one does.
pub proof fn lemma_first_index_props(s: Seq<u8>, b: u8, i: int)
    requires
        0 <= i,
    ensures
        first_index(s, b, i) matches Some(p) ==> i <= p < s.len() && s[p] == b && forall|j: int|
            i <= j < p ==> s[j] != b,
        first_index(s, b, i) is None ==> forall|j: int| i <= j < s.len() ==> s[j] != b,
    decreases s.len() - i,
{
    if i < s.len() && s[i] != b {
        lemma_first_index_props(s, b, i + 1);
    }
}

/// A byte preceded only by other bytes is the one that a search finds.
pub(crate) proof fn lemma_first_index_at(s: Seq<u8>, b: u8, i: int, p: int)
    requires
        0 <= i <= p < s.len(),
        s[p] == b,
        forall|j: int| i <= j < p ==> s[j] != b,
    ensures
        first_index(s, b, i) == Some(p),
    decreases p - i,
{
    if i < p {
        lemma_first_index_at(s, b, i + 1, p);
    }
}

/// Mode tokens are made of decimal digits only.
proof fn lemma_mode_token_digits(k: EntryKind)
    ensures
        mode_token(k).len() == 5 || mode_token(k).len() == 6,
        forall|j: int| 0 <= j < mode_token(k).len() ==> 48 <= #[trigger] mode_token(k)[j] <= 57,
        kind_of_mode(mode_token(k)) == Some(k),
{
    let m = mode_token(k);
    assert forall|j: int| 0 <= j < m.len() implies 48 <= #[trigger] m[j] <= 57 by {
        if j == 0 {
        } else if j == 1 {
        } else if j == 2 {
        } else if j == 3 {
        } else if j == 4 {
        } else {
        }
    }
    if k == EntryKind::Tree {
        assert(seq![48u8] + m =~= seq![48u8, 52u8, 48u8, 48u8, 48u8, 48u8]);
    }
}

/// An entry written out decodes back to itself, whatever follows it.
proof fn lemma_parse_encoded(e: EntryModel, rest: Seq<u8>)
    requires
        valid_entry(e),
    ensures
        parse_entry(encode_entry(e) + rest) == Some((e, encode_entry(e).len() as int)),
{
    let m = mode_token(e.mode);
    let x = encode_entry(e) + rest;
    let t = m.len() as int;
    let f = e.filename.len() as int;
    lemma_mode_token_digits(e.mode);
    assert(x =~= m + seq![32u8] + e.filename + seq![0u8] + e.oid + rest);
    assert forall|j: int| 0 <= j < t implies x[j] != 32u8 && x[j] == m[j] by {
        assert(x[j] == m[j]);
    }
    assert(x[t] == 32u8);
    lemma_first_index_at(x, 32u8, 0, t);
    assert(x.subrange(0, t) =~= m);
    assert forall|j: int| t + 1 <= j < t + 1 + f implies x[j] != 0u8 by {
        assert(x[j] == e.filename[j - t - 1]);
    }
    assert(x[t + 1 + f] == 0u8);
    lemma_first_index_at(x, 0u8, t + 1, t + 1 + f);
    assert(x.subrange(t + 1, t + 1 + f) =~= e.filename);
    assert(!has_slash(e.filename));
    assert(x.subrange(t + 2 + f, t + 2 + f + OID_LEN) =~= e.oid);
}

/// The wire form of a non-empty tree starts with its first entry.
proof fn lemma_encode_front(es: Seq<EntryModel>)
    requires
        es.len() > 0,
    ensures
        encode_entries(es) == encode_entry(es[0]) + encode_entries(es.drop_first()),
    decreases es.len(),
{
    if es.len() == 1 {
        assert(es.drop_last() =~= seq![]);
        assert(es.drop_first() =~= seq![]);
        assert(encode_entries(es) =~= encode_entry(es[0]) + encode_entries(es.drop_first()));
    } else {
        lemma_encode_front(es.drop_last());
        assert(es.drop_last().drop_first() =~= es.drop_first().drop_last());
        assert(es.drop_first().last() == es.last());
        assert(encode_entries(es) =~= encode_entry(es[0]) + encode_entries(es.drop_first()));
    }
}

/// Valid entries written out decode to exactly those entries, with no error.
pub proof fn lemma_decode_encode(es: Seq<EntryModel>)
    requires
        forall|i: int| 0 <= i < es.len() ==> valid_entry(#[trigger] es[i]),
    ensures
        decode_items(encode_entries(es)) == es.map_values(|e: EntryModel| Ok::<EntryModel, Error>(e)),
    decreases es.len(),
{
    if es.len() == 0 {
        assert(es.map_values(|e: EntryModel| Ok::<EntryModel, Error>(e)) =~= seq![]);
    } else {
        lemma_encode_front(es);
        let x = encode_entries(es);
        let n = encode_entry(es[0]).len() as int;
        assert(valid_entry(es[0]));
        lemma_parse_encoded(es[0], encode_entries(es.drop_first()));
        assert(x.subrange(n, x.len() as int) =~= encode_entries(es.drop_first()));
        assert forall|i: int| 0 <= i < es.drop_first().len() implies valid_entry(
            #[trigger] es.drop_first()[i],
        ) by {
            assert(es.drop_first()[i] == es[i + 1]);
        }
        lemma_decode_encode(es.drop_first());
        assert(decode_items(x) =~= es.map_values(|e: EntryModel| Ok::<EntryModel, Error>(e)));
    }
}

/// The entries of a sequence of decoded items that are all entries.
pub open spec fn entries_of(items: Seq<Result<EntryModel, Error>>) -> Seq<EntryModel> {
    items.map_values(|r: Result<EntryModel, Error>| r->Ok_0)
}

/// Whether decoding `s` yields no error: `s` is a well-formed tree payload.
pub open spec fn is_valid_tree(s: Seq<u8>) -> bool {
    forall|i: int| 0 <= i < decode_items(s).len() ==> (#[trigger] decode_items(s)[i]) is Ok
}

/// Every entry that the decoder yields can stand in a tree.
pub proof fn lemma_decoded_valid(s: Seq<u8>)
    ensures
        forall|i: int| 0 <= i < decode_items(s).len() ==> (#[trigger] decode_items(s)[i] matches Ok(e)
            ==> valid_entry(e)),
    decreases s.len(),
{
    if s.len() > 0 {
        if let Some((e, n)) = parse_entry(s) {
            if 0 < n <= s.len() {
                let sp = first_index(s, 32u8, 0)->Some_0;
                lemma_first_index_props(s, 32u8, 0);
                let nul = first_index(s, 0u8, sp + 1)->Some_0;
                lemma_first_index_props(s, 0u8, sp + 1);
                assert forall|i: int| 0 <= i < e.filename.len() implies #[trigger] e.filename[i] != 0u8
                    && e.filename[i] != 47u8 by {
                    assert(e.filename[i] == s[sp + 1 + i]);
                    if e.filename[i] == 47u8 {
                        assert(has_slash(s.subrange(sp + 1, nul)));
                    }
                }
                lemma_decoded_valid(s.subrange(n, s.len() as int));
                let rest = decode_items(s.subrange(n, s.len() as int));
                assert forall|i: int| 0 <= i < decode_items(s).len() implies (#[trigger] decode_items(
                    s,
                )[i] matches Ok(x) ==> valid_entry(x)) by {
                    if i > 0 {
                        assert(decode_items(s)[i] == rest[i - 1]);
                    }
                }
            }
        }
    }
}

/// Decoding, writing the entries out again and decoding that yields the same
/// items as the first decoding, for every well-formed tree payload.
pub proof fn lemma_round_trip(s: Seq<u8>)
    requires
        is_valid_tree(s),
    ensures
        decode_items(encode_entries(entries_of(decode_items(s)))) == decode_items(s),
{
    let items = decode_items(s);
    let es = entries_of(items);
    lemma_decoded_valid(s);
    assert forall|i: int| 0 <= i < es.len() implies valid_entry(#[trigger] es[i]) by {
        assert(items[i] is Ok);
    }
    lemma_decode_encode(es);
    assert forall|i: int| 0 <= i < items.len() implies es.map_values(
        |e: EntryModel| Ok::<EntryModel, Error>(e),
    )[i] == #[trigger] items[i] by {
        assert(items[i] is Ok);
    }
    assert(es.map_values(|e: EntryModel| Ok::<EntryModel, Error>(e)) =~= items);
}

/// Decoding is a function of the bytes alone: equal payloads decode to equal items.
pub proof fn lemma_decode_deterministic(a: Seq<u8>, b: Seq<u8>)
    requires
        a == b,
    ensures
        decode_items(a) == decode_items(b),
{
}

/// The empty payload is the empty tree: no entries and no error.
pub proof fn lemma_decode_empty()
    ensures
        decode_items(Seq::<u8>::empty()).len() == 0,
{
}

/// How many bytes the first `j` entries of `s` take.
pub open spec fn consumed(s: Seq<u8>, j: nat) -> int
    decreases j,
{
    if j == 0 {
        0
    } else {
        match parse_entry(s) {
            Some((e, n)) => if 0 < n <= s.len() {
                n + consumed(s.subrange(n, s.len() as int), (j - 1) as nat)
            } else {
                0
            },
            None => 0,
        }
    }
}

/// The first entries of a payload never take more bytes than it holds.
proof fn lemma_consumed_bound(s: Seq<u8>, j: nat)
    ensures
        0 <= consumed(s, j) <= s.len(),
    decreases j,
{
    if j > 0 {
        if let Some((e, n)) = parse_entry(s) {
            if 0 < n <= s.len() {
                lemma_consumed_bound(s.subrange(n, s.len() as int), (j - 1) as nat);
            }
        }
    }
}

/// Searching a prefix finds what searching the whole finds, if that lies within the prefix.
proof fn lemma_first_index_prefix(s: Seq<u8>, b: u8, i: int, k: int)
    requires
        0 <= i,
        0 <= k <= s.len(),
    ensures
        first_index(s.subrange(0, k), b, i) == (match first_index(s, b, i) {
            Some(p) => if p < k {
                Some(p)
            } else {
                None
            },
            None => None,
        }),
    decreases s.len() - i,
{
    if i < s.len() && s[i] != b {
        lemma_first_index_prefix(s, b, i + 1, k);
    }
}

/// A prefix that holds a whole entry decodes that entry as the whole does; a
/// non-empty prefix that cuts an entry short holds no entry.
proof fn lemma_parse_prefix(s: Seq<u8>, k: int)
    requires
        0 < k <= s.len(),
        parse_entry(s) is Some,
    ensures
        ({
            let n = parse_entry(s)->Some_0.1;
            &&& k >= n ==> parse_entry(s.subrange(0, k)) == parse_entry(s)
            &&& k < n ==> parse_entry(s.subrange(0, k)) is None
        }),
{
    let t = s.subrange(0, k);
    lemma_first_index_prefix(s, 32u8, 0, k);
    lemma_first_index_props(s, 32u8, 0);
    let sp = first_index(s, 32u8, 0)->Some_0;
    lemma_first_index_props(s, 0u8, sp + 1);
    let nul = first_index(s, 0u8, sp + 1)->Some_0;
    assert(parse_entry(s)->Some_0.1 == nul + 1 + OID_LEN);
    if sp < k {
        assert(t.subrange(0, sp) =~= s.subrange(0, sp));
        lemma_first_index_prefix(s, 0u8, sp + 1, k);
        if nul < k {
            assert(t.subrange(sp + 1, nul) =~= s.subrange(sp + 1, nul));
            if nul + 1 + OID_LEN <= k {
                assert(t.subrange(nul + 1, nul + 1 + OID_LEN) =~= s.subrange(nul + 1, nul + 1 + OID_LEN));
            }
        }
    }
}

/// A proper prefix of a well-formed tree payload decodes to exactly the entries
/// that lie wholly inside it; where the prefix cuts an entry short, one error
/// follows them, and nothing after that.
pub proof fn lemma_prefix_decode(s: Seq<u8>, j: nat, k: int)
    requires
        is_valid_tree(s),
        j < decode_items(s).len(),
        consumed(s, j) <= k < consumed(s, j + 1),
    ensures
        k == consumed(s, j) ==> decode_items(s.subrange(0, k)) == decode_items(s).subrange(0, j as int),
        k > consumed(s, j) ==> decode_items(s.subrange(0, k)) == decode_items(s).subrange(0, j as int)
            + seq![Err::<EntryModel, Error>(Error::MalformedTreeEntry)],
    decreases j,
{
    let items = decode_items(s);
    lemma_consumed_bound(s, j + 1);
    assert(items[0] is Ok);
    let (e, n) = parse_entry(s)->Some_0;
    assert(0 < n <= s.len());
    let rest = s.subrange(n, s.len() as int);
    assert(items == seq![Ok::<EntryModel, Error>(e)] + decode_items(rest));
    if j == 0 {
        assert(consumed(s, 1) == n + consumed(rest, 0));
        assert(decode_items(s).subrange(0, 0) =~= seq![]);
        if k > 0 {
            lemma_parse_prefix(s, k);
            assert(decode_items(s.subrange(0, k)) == seq![Err::<EntryModel, Error>(Error::MalformedTreeEntry)]);
            assert(decode_items(s).subrange(0, 0) + seq![Err::<EntryModel, Error>(Error::MalformedTreeEntry)]
                =~= seq![Err::<EntryModel, Error>(Error::MalformedTreeEntry)]);
        }
    } else {
        lemma_consumed_bound(rest, (j - 1) as nat);
        assert(consumed(s, j) == n + consumed(rest, (j - 1) as nat));
        lemma_parse_prefix(s, k);
        let t = s.subrange(0, k);
        assert(t.subrange(n, t.len() as int) =~= rest.subrange(0, k - n));
        assert forall|i: int| 0 <= i < decode_items(rest).len() implies (#[trigger] decode_items(
            rest,
        )[i]) is Ok by {
            assert(items[i + 1] is Ok);
        }
        lemma_prefix_decode(rest, (j - 1) as nat, k - n);
        assert(items.subrange(0, j as int) =~= seq![Ok::<EntryModel, Error>(e)] + decode_items(
            rest,
        ).subrange(0, j - 1));
        if k > consumed(s, j) {
            assert(items.subrange(0, j as int) + seq![Err::<EntryModel, Error>(Error::MalformedTreeEntry)]
                =~= seq![Ok::<EntryModel, Error>(e)] + (decode_items(rest).subrange(0, j - 1) + seq![
                Err::<EntryModel, Error>(Error::MalformedTreeEntry),
            ]));
        }
    }
}

} // verus!
