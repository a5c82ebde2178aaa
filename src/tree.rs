use vstd::prelude::*;
use vstd::slice::slice_subrange;
use crate::error::Error;
use crate::oid::{ObjectId, OID_LEN};

verus! {

/// The structural type of a tree entry, given on the wire as an octal mode.
#[derive(Debug, Clone, Copy, PartialEq, Eq, Structural)]
pub enum EntryKind {
    Tree,
    Blob,
    BlobExecutable,
    Link,
    Commit,
}

/// What an entry is, as plain values.
pub struct EntryModel {
    pub mode: EntryKind,
    pub filename: Seq<u8>,
    pub oid: Seq<u8>,
}

/// One row of a tree: its kind, its single-component name, and the object it names.
#[derive(Debug, Clone, PartialEq, Eq)]
pub struct Entry {
    pub mode: EntryKind,
    pub filename: Vec<u8>,
    pub oid: ObjectId,
}

impl View for Entry {
    type V = EntryModel;

    open spec fn view(&self) -> EntryModel {
        EntryModel { mode: self.mode, filename: self.filename@, oid: self.oid@ }
    }
}

/// What one pull of the decoder yields, as plain values.
pub open spec fn item_view(r: Result<Entry, Error>) -> Result<EntryModel, Error> {
    match r {
        Ok(e) => Ok(e@),
        Err(err) => Err(err),
    }
}

/// Whether `m` spells the six-byte token `a b c d e f`.
pub open spec fn is_token(m: Seq<u8>, a: u8, b: u8, c: u8, d: u8, e: u8, f: u8) -> bool {
    m.len() == 6 && m[0] == a && m[1] == b && m[2] == c && m[3] == d && m[4] == e && m[5] == f
}

/// The entry kind that an octal mode token stands for. A tree's mode is written
/// `40000` by git and `040000` in its padded form; both denote the same value.
pub open spec fn kind_of_mode(m: Seq<u8>) -> Option<EntryKind> {
    if is_token(m, 48, 52, 48, 48, 48, 48) || is_token(seq![48u8] + m, 48, 52, 48, 48, 48, 48) {
        Some(EntryKind::Tree)
    } else if is_token(m, 49, 48, 48, 54, 52, 52) {
        Some(EntryKind::Blob)
    } else if is_token(m, 49, 48, 48, 55, 53, 53) {
        Some(EntryKind::BlobExecutable)
    } else if is_token(m, 49, 50, 48, 48, 48, 48) {
        Some(EntryKind::Link)
    } else if is_token(m, 49, 54, 48, 48, 48, 48) {
        Some(EntryKind::Commit)
    } else {
        None
    }
}

/// The first position at or after `i` where `s` holds `b`.
pub open spec fn first_index(s: Seq<u8>, b: u8, i: int) -> Option<int>
    decreases s.len() - i,
{
    if i < 0 || i >= s.len() {
        None
    } else if s[i] == b {
        Some(i)
    } else {
        first_index(s, b, i + 1)
    }
}

/// Whether a name holds a path separator.
pub open spec fn has_slash(name: Seq<u8>) -> bool {
    exists|i: int| 0 <= i < name.len() && name[i] == 47u8
}

/// The entry at the start of `s` and the number of bytes it takes:
/// `<mode> <filename>\0<20 raw identifier bytes>`.
pub open spec fn parse_entry(s: Seq<u8>) -> Option<(EntryModel, int)> {
    match first_index(s, 32u8, 0) {
        None => None,
        Some(sp) => match kind_of_mode(s.subrange(0, sp)) {
            None => None,
            Some(mode) => match first_index(s, 0u8, sp + 1) {
                None => None,
                Some(nul) => if has_slash(s.subrange(sp + 1, nul)) || nul + 1 + OID_LEN > s.len() {
                    None
                } else {
                    Some(
                        (
                            EntryModel {
                                mode,
                                filename: s.subrange(sp + 1, nul),
                                oid: s.subrange(nul + 1, nul + 1 + OID_LEN),
                            },
                            nul + 1 + OID_LEN,
                        ),
                    )
                },
            },
        },
    }
}

/// Everything that decoding the tree payload `s` yields: the entries in the order
/// the bytes hold them, followed by one error if the bytes stop being well formed.
pub open spec fn decode_items(s: Seq<u8>) -> Seq<Result<EntryModel, Error>>
    decreases s.len(),
{
    if s.len() == 0 {
        seq![]
    } else {
        match parse_entry(s) {
            None => seq![Err(Error::MalformedTreeEntry)],
            Some((e, n)) => if 0 < n <= s.len() {
                seq![Ok(e)] + decode_items(s.subrange(n, s.len() as int))
            } else {
                seq![]
            },
        }
    }
}

/// The phase of a tree decoder.
#[derive(Debug, Clone, Copy, PartialEq, Eq, Structural)]
pub enum DecodeState {
    /// Entries may still follow.
    Scanning,
    /// A malformed entry was reported; nothing follows.
    Errored,
    /// The payload was consumed exactly; nothing follows.
    Done,
}


/// Where `b` first occurs in `data` at or after `from`.
pub(crate) fn find_byte(data: &[u8], b: u8, from: usize) -> (r: Option<usize>)
    ensures
        r matches Some(p) ==> first_index(data@, b, from as int) == Some(p as int) && from <= p
            < data@.len() && data@[p as int] == b,
        r is None ==> first_index(data@, b, from as int) is None,
{
    let mut i: usize = from;
    while i < data.len()
        invariant
            from <= i,
            first_index(data@, b, from as int) == first_index(data@, b, i as int),
        decreases data@.len() - i,
    {
        if data[i] == b {
            return Some(i);
        }
        i = i + 1;
    }
    None
}

/// The entry kind of the mode token `data[start..end]`.
fn mode_of(data: &[u8], start: usize, end: usize) -> (r: Option<EntryKind>)
    requires
        start <= end <= data@.len(),
    ensures
        r == kind_of_mode(data@.subrange(start as int, end as int)),
{
    let ghost m = data@.subrange(start as int, end as int);
    assert((seq![48u8] + m).len() == m.len() + 1);
    if end - start == 5 {
        assert((seq![48u8] + m)[0] == 48u8);
        assert(forall|k: int| 0 <= k < 5 ==> (seq![48u8] + m)[k + 1] == m[k]);
        if data[start] == 52 && data[start + 1] == 48 && data[start + 2] == 48 && data[start + 3]
            == 48 && data[start + 4] == 48 {
            return Some(EntryKind::Tree);
        }
        return None;
    }
    if end - start != 6 {
        return None;
    }
    let a = data[start];
    let b = data[start + 1];
    let c = data[start + 2];
    let d = data[start + 3];
    let e = data[start + 4];
    let f = data[start + 5];
    if a == 48 && b == 52 && c == 48 && d == 48 && e == 48 && f == 48 {
        Some(EntryKind::Tree)
    } else if a == 49 && b == 48 && c == 48 && d == 54 && e == 52 && f == 52 {
        Some(EntryKind::Blob)
    } else if a == 49 && b == 48 && c == 48 && d == 55 && e == 53 && f == 53 {
        Some(EntryKind::BlobExecutable)
    } else if a == 49 && b == 50 && c == 48 && d == 48 && e == 48 && f == 48 {
        Some(EntryKind::Link)
    } else if a == 49 && b == 54 && c == 48 && d == 48 && e == 48 && f == 48 {
        Some(EntryKind::Commit)
    } else {
        None
    }
}

/// Searching a suffix of `s` finds what searching `s` from the suffix's start finds.
pub(crate) proof fn lemma_first_index_suffix(s: Seq<u8>, b: u8, start: int, i: int)
    requires
        0 <= start <= s.len(),
        0 <= i,
    ensures
        first_index(s.subrange(start, s.len() as int), b, i) == (match first_index(s, b, start + i) {
            None => None,
            Some(p) => Some(p - start),
        }),
    decreases s.len() - start - i,
{
    if start + i < s.len() && s[start + i] != b {
        lemma_first_index_suffix(s, b, start, i + 1);
    }
}

/// Whether `data[start..end]` holds a `/`.
fn has_slash_in(data: &[u8], start: usize, end: usize) -> (r: bool)
    requires
        start <= end <= data@.len(),
    ensures
        r == has_slash(data@.subrange(start as int, end as int)),
{
    let mut i: usize = start;
    while i < end
        invariant
            start <= i <= end <= data@.len(),
            forall|j: int| start <= j < i ==> data@[j] != 47u8,
        decreases end - i,
    {
        if data[i] == 47 {
            assert(data@.subrange(start as int, end as int)[i - start] == 47u8);
            return true;
        }
        i = i + 1;
    }
    false
}

/// A copy of `data[start..end]`.
pub(crate) fn copy_range(data: &[u8], start: usize, end: usize) -> (r: Vec<u8>)
    requires
        start <= end <= data@.len(),
    ensures
        r@ == data@.subrange(start as int, end as int),
{
    let mut out: Vec<u8> = Vec::new();
    let mut i: usize = start;
    while i < end
        invariant
            start <= i <= end <= data@.len(),
            out@ == data@.subrange(start as int, i as int),
        decreases end - i,
    {
        out.push(data[i]);
        assert(data@.subrange(start as int, i + 1) =~= data@.subrange(start as int, i as int).push(data@[i as int]));
        i = i + 1;
    }
    out
}

/// Decodes the entry that starts at `start`, returning it with the position just past it.
fn parse_entry_at(data: &[u8], start: usize) -> (r: Option<(Entry, usize)>)
    requires
        start < data@.len(),
    ensures
        ({
            let rest = data@.subrange(start as int, data@.len() as int);
            match r {
                None => parse_entry(rest) is None,
                Some((e, end)) => start < end <= data@.len() && parse_entry(rest) == Some(
                    (e@, end - start),
                ),
            }
        }),
{
    let ghost rest = data@.subrange(start as int, data@.len() as int);
    let len = data.len();
    proof {
        lemma_first_index_suffix(data@, 32u8, start as int, 0);
    }
    let sp = match find_byte(data, 32, start) {
        None => return None,
        Some(p) => p,
    };
    assert(rest.subrange(0, sp - start) =~= data@.subrange(start as int, sp as int));
    let mode = match mode_of(data, start, sp) {
        None => return None,
        Some(m) => m,
    };
    proof {
        lemma_first_index_suffix(data@, 0u8, start as int, sp - start + 1);
    }
    let nul = match find_byte(data, 0, sp + 1) {
        None => return None,
        Some(p) => p,
    };
    assert(rest.subrange(sp - start + 1, nul - start) =~= data@.subrange(sp + 1, nul as int));
    if has_slash_in(data, sp + 1, nul) {
        return None;
    }
    if len - (nul + 1) < OID_LEN {
        return None;
    }
    let end = nul + 1 + OID_LEN;
    let filename = copy_range(data, sp + 1, nul);
    let oid = match ObjectId::from_bytes(slice_subrange(data, nul + 1, end)) {
        Ok(id) => id,
        Err(_) => return None,
    };
    assert(rest.subrange(nul - start + 1, end - start) =~= data@.subrange(nul + 1, end as int));
    Some((Entry { mode, filename, oid }, end))
}

/// A lazy decoder over a tree payload. It yields the entries in the order the
/// bytes hold them; at the first malformed entry it yields one error and then
/// nothing more. The entries are copies, so they outlive the decoder.
pub struct TreeRefIter<'a> {
    data: &'a [u8],
    pos: usize,
    state: DecodeState,
}

impl<'a> TreeRefIter<'a> {
    /// The cursor stays within the payload.
    pub closed spec fn wf(&self) -> bool {
        self.pos <= self.data@.len()
    }

    /// What the decoder has still to yield.
    pub closed spec fn remaining(&self) -> Seq<Result<EntryModel, Error>> {
        match self.state {
            DecodeState::Scanning => decode_items(self.data@.subrange(self.pos as int, self.data@.len() as int)),
            _ => seq![],
        }
    }

    /// The phase the decoder is in.
    pub closed spec fn phase(&self) -> DecodeState {
        self.state
    }

    /// A decoder positioned at the start of `data`; an empty payload is an
    /// empty tree, over at once.
    pub fn from_bytes(data: &'a [u8]) -> (r: TreeRefIter<'a>)
        ensures
            r.wf(),
            r.remaining() == decode_items(data@),
            r.phase() == (if data@.len() == 0 {
                DecodeState::Done
            } else {
                DecodeState::Scanning
            }),
    {
        let state = if data.len() == 0 {
            DecodeState::Done
        } else {
            DecodeState::Scanning
        };
        let r = TreeRefIter { data, pos: 0, state };
        assert(data@.subrange(0, data@.len() as int) =~= data@);
        r
    }

    /// The phase the decoder is in.
    pub fn state(&self) -> (r: DecodeState)
        ensures
            r == self.phase(),
            r is Errored || r is Done ==> self.remaining().len() == 0,
    {
        self.state
    }

    /// The next item: an entry, the error that ends the sequence, or `None` once
    /// the sequence is over.
    pub fn next(&mut self) -> (r: Option<Result<Entry, Error>>)
        requires
            old(self).wf(),
        ensures
            final(self).wf(),
            r matches Some(Ok(_)) ==> final(self).phase() is Scanning,
            r matches Some(Err(_)) ==> final(self).phase() is Errored,
            r is None ==> !(final(self).phase() is Scanning),
            old(self).remaining().len() == 0 ==> r is None && final(self).remaining().len() == 0,
            old(self).remaining().len() > 0 ==> (r matches Some(item) && item_view(item)
                == old(self).remaining()[0] && final(self).remaining() == old(self).remaining().drop_first()),
    {
        match self.state {
            DecodeState::Scanning => {},
            _ => return None,
        }
        let ghost rest = self.data@.subrange(self.pos as int, self.data@.len() as int);
        if self.pos == self.data.len() {
            self.state = DecodeState::Done;
            return None;
        }
        match parse_entry_at(self.data, self.pos) {
            None => {
                self.state = DecodeState::Errored;
                Some(Err(Error::MalformedTreeEntry))
            },
            Some((e, end)) => {
                self.pos = end;
                assert(rest.subrange(end - (old(self).pos as int), rest.len() as int) =~= self.data@.subrange(
                    end as int,
                    self.data@.len() as int,
                ));
                assert(decode_items(rest) == seq![Ok(e@)] + decode_items(
                    rest.subrange(end - (old(self).pos as int), rest.len() as int),
                ));
                assert((seq![Ok(e@)] + self.remaining()).drop_first() =~= self.remaining());
                Some(Ok(e))
            },
        }
    }

    /// Every item that is left, in order.
    pub fn collect_items(&mut self) -> (r: Vec<Result<Entry, Error>>)
        requires
            old(self).wf(),
        ensures
            final(self).wf(),
            final(self).remaining().len() == 0,
            r@.len() == old(self).remaining().len(),
            forall|i: int| 0 <= i < r@.len() ==> item_view(#[trigger] r@[i]) == old(self).remaining()[i],
    {
        let mut out: Vec<Result<Entry, Error>> = Vec::new();
        let ghost all = self.remaining();
        loop
            invariant
                self.wf(),
                out@.len() + self.remaining().len() == all.len(),
                self.remaining() == all.subrange(out@.len() as int, all.len() as int),
                forall|i: int| 0 <= i < out@.len() ==> item_view(#[trigger] out@[i]) == all[i],
            ensures
                self.wf(),
                self.remaining().len() == 0,
                out@.len() == all.len(),
                forall|i: int| 0 <= i < out@.len() ==> item_view(#[trigger] out@[i]) == all[i],
            decreases self.remaining().len(),
        {
            match self.next() {
                None => break,
                Some(item) => {
                    out.push(item);
                    assert(all.subrange(out@.len() as int, all.len() as int) =~= all.subrange(
                        out@.len() - 1,
                        all.len() as int,
                    ).drop_first());
                },
            }
        }
        out
    }
}

/// The token git writes for each entry kind.
pub open spec fn mode_token(k: EntryKind) -> Seq<u8> {
    match k {
        EntryKind::Tree => seq![52u8, 48u8, 48u8, 48u8, 48u8],
        EntryKind::Blob => seq![49u8, 48u8, 48u8, 54u8, 52u8, 52u8],
        EntryKind::BlobExecutable => seq![49u8, 48u8, 48u8, 55u8, 53u8, 53u8],
        EntryKind::Link => seq![49u8, 50u8, 48u8, 48u8, 48u8, 48u8],
        EntryKind::Commit => seq![49u8, 54u8, 48u8, 48u8, 48u8, 48u8],
    }
}

/// The wire form of one entry: `<mode> <filename>\0<raw identifier>`.
pub open spec fn encode_entry(e: EntryModel) -> Seq<u8> {
    mode_token(e.mode) + seq![32u8] + e.filename + seq![0u8] + e.oid
}

/// The wire form of a tree: its entries' wire forms one after another.
pub open spec fn encode_entries(es: Seq<EntryModel>) -> Seq<u8>
    decreases es.len(),
{
    if es.len() == 0 {
        seq![]
    } else {
        encode_entries(es.drop_last()) + encode_entry(es.last())
    }
}

/// An entry that can stand in a tree: its name holds neither NUL nor `/`, and
/// its identifier has the fixed width.
pub open spec fn valid_entry(e: EntryModel) -> bool {
    &&& e.oid.len() == OID_LEN
    &&& forall|i: int| 0 <= i < e.filename.len() ==> #[trigger] e.filename[i] != 0u8 && e.filename[i] != 47u8
}

/// The views of a sequence of entries.
pub open spec fn entries_view(es: Seq<Entry>) -> Seq<EntryModel> {
    es.map_values(|e: Entry| e@)
}

/// The token of `k`, as bytes that a writer can append.
fn mode_bytes(k: EntryKind) -> (r: Vec<u8>)
    ensures
        r@ == mode_token(k),
{
    let r = match k {
        EntryKind::Tree => vec![52u8, 48u8, 48u8, 48u8, 48u8],
        EntryKind::Blob => vec![49u8, 48u8, 48u8, 54u8, 52u8, 52u8],
        EntryKind::BlobExecutable => vec![49u8, 48u8, 48u8, 55u8, 53u8, 53u8],
        EntryKind::Link => vec![49u8, 50u8, 48u8, 48u8, 48u8, 48u8],
        EntryKind::Commit => vec![49u8, 54u8, 48u8, 48u8, 48u8, 48u8],
    };
    assert(r@ =~= mode_token(k));
    r
}

/// Serialises `entries` as a tree payload, in the order given.
pub fn encode_tree(entries: &Vec<Entry>) -> (r: Vec<u8>)
    ensures
        r@ == encode_entries(entries_view(entries@)),
{
    let mut out: Vec<u8> = Vec::new();
    let mut i: usize = 0;
    while i < entries.len()
        invariant
            i <= entries@.len(),
            out@ == encode_entries(entries_view(entries@.subrange(0, i as int))),
        decreases entries@.len() - i,
    {
        let e = &entries[i];
        let before = Ghost(out@);
        let mode = mode_bytes(e.mode);
        out.extend_from_slice(mode.as_slice());
        out.push(32u8);
        out.extend_from_slice(e.filename.as_slice());
        out.push(0u8);
        out.extend_from_slice(e.oid.as_bytes());
        proof {
            let es = entries_view(entries@.subrange(0, i + 1));
            assert(es.drop_last() =~= entries_view(entries@.subrange(0, i as int)));
            assert(es.last() == e@);
            assert(out@ =~= before@ + encode_entry(e@));
        }
        i = i + 1;
    }
    assert(entries@.subrange(0, entries@.len() as int) =~= entries@);
    out
}

} // verus!
