use vstd::prelude::*;

use crate::util::{full_hash, null_hash, null_hash_spec, Bytes, FullHash};

verus! {

/// Length of a serialized block header.
pub const HEADER_LEN: usize = 80;

/// A block header: the block's hash, the hash of its parent and its raw bytes.
pub struct BlockHeader {
    pub hash: FullHash,
    pub prev_blockhash: FullHash,
    pub raw: Bytes,
}

pub struct BlockHeaderView {
    pub hash: Seq<u8>,
    pub prev_blockhash: Seq<u8>,
    pub raw: Seq<u8>,
}

impl View for BlockHeader {
    type V = BlockHeaderView;

    open spec fn view(&self) -> BlockHeaderView {
        BlockHeaderView { hash: self.hash@, prev_blockhash: self.prev_blockhash@, raw: self.raw@ }
    }
}

impl BlockHeader {
    /// Reads a header from its raw bytes; the parent's hash sits at bytes 4 to 36.
    pub fn parse(hash: &FullHash, raw: &[u8]) -> (r: Option<BlockHeader>)
        ensures
            r is Some <==> raw@.len() == HEADER_LEN,
            r matches Some(h) ==> h.hash@ == hash@ && h.raw@ == raw@ && h.prev_blockhash@
                == raw@.subrange(4, 36),
    {
        if raw.len() != HEADER_LEN {
            return None;
        }
        let mut prev: Vec<u8> = Vec::new();
        let mut i: usize = 4;
        while i < 36
            invariant
                4 <= i <= 36,
                raw@.len() == 80,
                prev@ == raw@.subrange(4, i as int),
            decreases 36 - i,
        {
            prev.push(raw[i]);
            i = i + 1;
            assert(prev@ =~= raw@.subrange(4, i as int));
        }
        let prev_blockhash = full_hash(prev.as_slice());
        assert(prev@.subrange(0, 32) =~= prev@);
        Some(BlockHeader { hash: *hash, prev_blockhash, raw: vstd::slice::slice_to_vec(raw) })
    }

    pub fn copy(&self) -> (r: BlockHeader)
        ensures
            r@ == self@,
    {
        BlockHeader {
            hash: self.hash,
            prev_blockhash: self.prev_blockhash,
            raw: vstd::slice::slice_to_vec(self.raw.as_slice()),
        }
    }
}

/// A header of the chain, with its height.
pub struct HeaderEntry {
    pub height: usize,
    pub header: BlockHeader,
}

pub struct HeaderEntryView {
    pub height: nat,
    pub header: BlockHeaderView,
}

impl View for HeaderEntry {
    type V = HeaderEntryView;

    open spec fn view(&self) -> HeaderEntryView {
        HeaderEntryView { height: self.height as nat, header: self.header@ }
    }
}

impl HeaderEntry {
    pub fn height(&self) -> (r: usize)
        ensures
            r == self.height,
    {
        self.height
    }

    pub fn hash(&self) -> (r: &FullHash)
        ensures
            *r == self.header.hash,
    {
        &self.header.hash
    }

    pub fn header(&self) -> (r: &BlockHeader)
        ensures
            *r == self.header,
    {
        &self.header
    }

    pub fn copy(&self) -> (r: HeaderEntry)
        ensures
            r@ == self@,
    {
        HeaderEntry { height: self.height, header: self.header.copy() }
    }
}

pub open spec fn entries_view(s: Seq<HeaderEntry>) -> Seq<HeaderEntryView> {
    s.map_values(|e: HeaderEntry| e@)
}

/// `entries` are linked: consecutive heights, each naming its predecessor as parent.
pub open spec fn is_linked(entries: Seq<HeaderEntryView>) -> bool {
    forall|i: int|
        0 < i < entries.len() ==> #[trigger] entries[i].height == entries[i - 1].height + 1
            && entries[i].header.prev_blockhash == entries[i - 1].header.hash
}

/// A well-formed chain: entry `i` has height `i`, the first has no parent, each
/// names the one before as parent, and `tip` is the hash of the last (all-zero when empty).
pub open spec fn is_chain(entries: Seq<HeaderEntryView>, tip: Seq<u8>) -> bool {
    &&& forall|i: int| 0 <= i < entries.len() ==> (#[trigger] entries[i]).height == i
    &&& is_linked(entries)
    &&& entries.len() > 0 ==> entries[0].header.prev_blockhash == null_hash_spec()
    &&& entries.len() == 0 ==> tip == null_hash_spec()
    &&& entries.len() > 0 ==> tip == entries.last().header.hash
}

/// `new` extends the first `new[0].height` entries of `old`, ending at `tip`.
pub open spec fn fits(old: Seq<HeaderEntryView>, old_tip: Seq<u8>, new: Seq<HeaderEntryView>, tip: Seq<u8>) -> bool {
    &&& tip == null_hash_spec() ==> new.len() == 0
    &&& tip != null_hash_spec() && new.len() == 0 ==> tip == old_tip
    &&& new.len() > 0 ==> {
        &&& tip == new.last().header.hash
        &&& new[0].height <= old.len()
        &&& new[0].height == 0 ==> new[0].header.prev_blockhash == null_hash_spec()
        &&& new[0].height > 0 ==> new[0].header.prev_blockhash == old[new[0].height - 1].header.hash
        &&& is_linked(new)
    }
}

/// The chain of indexed headers, by height, with the hash of its tip.
pub struct HeaderList {
    headers: Vec<HeaderEntry>,
    tip: FullHash,
}

impl HeaderList {
    pub closed spec fn entries(&self) -> Seq<HeaderEntryView> {
        entries_view(self.headers@)
    }

    pub closed spec fn tip_spec(&self) -> Seq<u8> {
        self.tip@
    }

    pub open spec fn wf(&self) -> bool {
        is_chain(self.entries(), self.tip_spec())
    }

    pub fn empty() -> (r: HeaderList)
        ensures
            r.wf(),
            r.entries().len() == 0,
    {
        let r = HeaderList { headers: Vec::new(), tip: null_hash() };
        assert(r.entries() =~= Seq::<HeaderEntryView>::empty());
        r
    }

    pub fn len(&self) -> (r: usize)
        ensures
            r == self.entries().len(),
    {
        self.headers.len()
    }

    pub fn tip(&self) -> (r: FullHash)
        ensures
            r@ == self.tip_spec(),
    {
        self.tip
    }

    /// Gives `new_headers` consecutive heights following the current chain.
    pub fn order(&self, new_headers: Vec<BlockHeader>) -> (r: Vec<HeaderEntry>)
        requires
            self.entries().len() + new_headers@.len() <= usize::MAX,
        ensures
            r@.len() == new_headers@.len(),
            forall|i: int| 0 <= i < r@.len() ==> (#[trigger] r@[i]).height == self.entries().len() + i
                && r@[i].header@ == new_headers@[i]@,
    {
        let start = self.headers.len();
        let mut r: Vec<HeaderEntry> = Vec::new();
        let mut i: usize = 0;
        while i < new_headers.len()
            invariant
                start == self.entries().len(),
                start + new_headers@.len() <= usize::MAX,
                0 <= i <= new_headers@.len(),
                r@.len() == i,
                forall|j: int| 0 <= j < i ==> (#[trigger] r@[j]).height == start + j && r@[j].header@
                    == new_headers@[j]@,
            decreases new_headers.len() - i,
        {
            r.push(HeaderEntry { height: start + i, header: new_headers[i].copy() });
            i = i + 1;
        }
        r
    }

    /// Replaces the entries from the first new height on by `new_headers`, and moves
    /// the tip to `tip`; an all-zero `tip` empties the chain.
    pub fn apply(&mut self, new_headers: Vec<HeaderEntry>, tip: FullHash)
        requires
            old(self).wf(),
            fits(old(self).entries(), old(self).tip_spec(), entries_view(new_headers@), tip@),
        ensures
            final(self).wf(),
            final(self).tip_spec() == if new_headers@.len() == 0 && tip@ != null_hash_spec() {
                old(self).tip_spec()
            } else {
                tip@
            },
            tip@ == null_hash_spec() ==> final(self).entries().len() == 0,
            tip@ != null_hash_spec() && new_headers@.len() == 0 ==> final(self).entries() == old(self).entries(),
            new_headers@.len() > 0 ==> final(self).entries() == old(self).entries().subrange(
                0,
                new_headers@[0].height as int,
            ) + entries_view(new_headers@),
    {
        let ghost pre = self.entries();
        let ghost nv = entries_view(new_headers@);
        if crate::util::is_null_hash(&tip) {
            self.headers = Vec::new();
            self.tip = null_hash();
            assert(self.entries() =~= Seq::<HeaderEntryView>::empty());
            return;
        }
        if new_headers.len() == 0 {
            return;
        }
        assert(nv[0] == new_headers@[0]@);
        let new_height = new_headers[0].height;
        self.headers.truncate(new_height);
        assert(self.entries() =~= pre.subrange(0, new_height as int));
        let mut rest = new_headers;
        let ghost appended = self.entries();
        self.headers.append(&mut rest);
        assert(self.entries() =~= appended + nv);
        self.tip = tip;
        let ghost e = self.entries();
        assert forall|i: int| 0 <= i < e.len() implies (#[trigger] e[i]).height == i by {
            if i >= new_height {
                lemma_linked_heights(nv, i - new_height);
                assert(e[i] == nv[i - new_height]);
            }
        }
        assert forall|i: int| 0 < i < e.len() implies #[trigger] e[i].height == e[i - 1].height + 1
            && e[i].header.prev_blockhash == e[i - 1].header.hash by {
            if i > new_height {
                assert(nv[i - new_height] == e[i]);
                assert(nv[i - new_height - 1] == e[i - 1]);
            } else if i == new_height {
                assert(nv[0] == e[i]);
            }
        }
    }

    /// Whether `new_headers` and `tip` may be applied to this chain.
    pub fn check_fits(&self, new_headers: &Vec<HeaderEntry>, tip: &FullHash) -> (r: bool)
        requires
            self.wf(),
        ensures
            r == fits(self.entries(), self.tip_spec(), entries_view(new_headers@), tip@),
    {
        let ghost nv = entries_view(new_headers@);
        let n = new_headers.len();
        if crate::util::is_null_hash(tip) {
            return n == 0;
        }
        if n == 0 {
            return crate::util::same_hash(tip, &self.tip);
        }
        assert(nv[0] == new_headers@[0]@);
        assert(nv.last() == new_headers@[n - 1]@);
        if !crate::util::same_hash(tip, &new_headers[n - 1].header.hash) {
            return false;
        }
        let h = new_headers[0].height;
        if h > self.headers.len() {
            return false;
        }
        if h == 0 {
            if !crate::util::is_null_hash(&new_headers[0].header.prev_blockhash) {
                return false;
            }
        } else {
            assert(self.entries()[h - 1] == self.headers@[h - 1]@);
            if !crate::util::same_hash(&new_headers[0].header.prev_blockhash, &self.headers[h - 1].header.hash) {
                return false;
            }
        }
        let mut i: usize = 1;
        while i < n
            invariant
                n == nv.len(),
                nv == entries_view(new_headers@),
                n == new_headers@.len(),
                1 <= i <= n,
                forall|k: int| 0 < k < i ==> #[trigger] nv[k].height == nv[k - 1].height + 1
                    && nv[k].header.prev_blockhash == nv[k - 1].header.hash,
            decreases n - i,
        {
            assert(nv[i as int] == new_headers@[i as int]@);
            assert(nv[i - 1] == new_headers@[i - 1]@);
            let prev_height = new_headers[i - 1].height;
            if prev_height == usize::MAX || new_headers[i].height != prev_height + 1 {
                assert(nv[i as int].height != nv[i - 1].height + 1);
                assert(!is_linked(nv));
                return false;
            }
            if !crate::util::same_hash(&new_headers[i].header.prev_blockhash, &new_headers[i - 1].header.hash) {
                assert(nv[i as int].height == nv[i - 1].height + 1 && nv[i as int].header.prev_blockhash != nv[i - 1].header.hash);
                assert(!is_linked(nv));
                return false;
            }
            i = i + 1;
        }
        true
    }

    /// The entry at `height`.
    pub fn header_by_height(&self, height: usize) -> (r: Option<HeaderEntry>)
        ensures
            r is Some <==> height < self.entries().len(),
            r matches Some(e) ==> e@ == self.entries()[height as int],
    {
        if height < self.headers.len() {
            Some(self.headers[height].copy())
        } else {
            None
        }
    }

    /// The entry whose block hash is `blockhash`.
    pub fn header_by_blockhash(&self, blockhash: &FullHash) -> (r: Option<HeaderEntry>)
        ensures
            r is Some <==> exists|i: int|
                0 <= i < self.entries().len() && (#[trigger] self.entries()[i]).header.hash == blockhash@,
            r matches Some(e) ==> e.header.hash@ == blockhash@ && exists|i: int|
                0 <= i < self.entries().len() && (#[trigger] self.entries()[i]) == e@,
    {
        let mut i: usize = 0;
        while i < self.headers.len()
            invariant
                0 <= i <= self.entries().len(),
                forall|j: int| 0 <= j < i ==> (#[trigger] self.entries()[j]).header.hash != blockhash@,
            decreases self.headers.len() - i,
        {
            assert(self.entries()[i as int] == self.headers@[i as int]@);
            if crate::util::same_hash(&self.headers[i].header.hash, blockhash) {
                return Some(self.headers[i].copy());
            }
            i = i + 1;
        }
        None
    }
}

/// Header continuity: in the chain that `load` builds and every `apply` keeps, each
/// header names the one before it as parent, heights count up from 0, and the tip is
/// the hash of the last header (all-zero for an empty chain).
pub proof fn lemma_header_continuity(list: &HeaderList)
    requires
        list.wf(),
    ensures
        forall|i: int|
            0 < i < list.entries().len() ==> (#[trigger] list.entries()[i]).header.prev_blockhash
                == list.entries()[i - 1].header.hash,
        forall|i: int| 0 <= i < list.entries().len() ==> (#[trigger] list.entries()[i]).height == i,
        list.entries().len() > 0 ==> list.tip_spec() == list.entries().last().header.hash,
        list.entries().len() == 0 ==> list.tip_spec() == null_hash_spec(),
{
    assert forall|i: int| 0 < i < list.entries().len() implies (#[trigger] list.entries()[i]).header.prev_blockhash
        == list.entries()[i - 1].header.hash by {
        assert(list.entries()[i].height == list.entries()[i - 1].height + 1);
    }
}

proof fn lemma_linked_heights(nv: Seq<HeaderEntryView>, m: int)
    requires
        is_linked(nv),
        0 <= m < nv.len(),
    ensures
        nv[m].height == nv[0].height + m,
    decreases m,
{
    if m > 0 {
        lemma_linked_heights(nv, m - 1);
    }
}

} // verus!
