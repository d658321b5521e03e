//! Lazy HDU discovery: the HDUs of a source found so far, each starting
//! where the previous one's data ends. Discovery reads headers only, and
//! only as far as a request needs.

use vstd::prelude::*;
use crate::error::FitsError;
use crate::hdu::{DiscoveredHdu, HduKind, discover_one, data_len_of, lemma_end_position_in_range, lemma_scan_errors};
use crate::block::spec_padded_len;
use crate::card::CardView;
use crate::header::{axis_value, naxis_count, naxis_scan, end_position, merge_from, cards_upto};
use crate::source::ByteSource;

verus! {

/// Where the HDU after `h[..k]` starts: zero for the first, else where the
/// previous HDU's data ends.
pub open spec fn start_of(h: Seq<DiscoveredHdu>, k: int) -> int {
    if k <= 0 {
        0
    } else {
        h[k - 1].data_offset + h[k - 1].data_padded_len
    }
}

/// Each HDU starts where the previous one ends, the first is the primary
/// HDU, and every data unit ends within `u64`.
pub open spec fn chained(h: Seq<DiscoveredHdu>) -> bool {
    forall|k: int|
        0 <= k < h.len() ==> {
            &&& (#[trigger] h[k]).header_offset == start_of(h, k)
            &&& h[k].data_offset + h[k].data_padded_len <= u64::MAX
            &&& h[k].data_offset >= h[k].header_offset + 2880
            &&& (k == 0 ==> h[k].kind is Primary)
        }
}

/// `e` is how discovering the HDU at `offset` of `b` can fail: no `END`
/// card before the source runs out (`MissingEnd`), a read of the source
/// fails (`Io`), or the header read there declares a data unit that cannot
/// be sized or does not fit in `u64`.
pub open spec fn discovery_error(b: Seq<u8>, offset: int, e: FitsError) -> bool {
    (e is MissingEnd && end_position(b, offset, 0) is None) || e is Io || match end_position(b, offset, 0) {
        Some((blk, j)) => {
            let h = merge_from(cards_upto(b, offset, blk, j), 0);
            match data_len_of(h) {
                Err(x) => e == x,
                Ok(n) => e is NaxisOverflow && (spec_padded_len(n as int) > u64::MAX || offset + 2880 * (blk + 1)
                    + spec_padded_len(n as int) > u64::MAX),
            }
        },
        None => false,
    }
}

/// The HDUs of one source discovered so far.
#[derive(Debug, Clone)]
pub struct HduIndex {
    hdus: Vec<DiscoveredHdu>,
    exhausted: bool,
}

impl View for HduIndex {
    type V = Seq<DiscoveredHdu>;

    closed spec fn view(&self) -> Seq<DiscoveredHdu> {
        self.hdus@
    }
}

impl HduIndex {
    /// Discovery has run off the end of the source.
    pub closed spec fn spec_exhausted(&self) -> bool {
        self.exhausted
    }

    pub closed spec fn wf(&self) -> bool {
        chained(self.hdus@)
    }

    /// Nothing discovered yet.
    pub fn new() -> (x: HduIndex)
        ensures
            x@.len() == 0,
            !x.spec_exhausted(),
            x.wf(),
    {
        HduIndex { hdus: Vec::new(), exhausted: false }
    }

    pub fn len(&self) -> (n: usize)
        ensures
            n == self@.len(),
    {
        self.hdus.len()
    }

    pub fn get(&self, index: usize) -> (h: &DiscoveredHdu)
        requires
            index < self@.len(),
        ensures
            *h == self@[index as int],
    {
        &self.hdus[index]
    }

    pub fn is_exhausted(&self) -> (b: bool)
        ensures
            b == self.spec_exhausted(),
    {
        self.exhausted
    }

    /// Where the next undiscovered HDU would start.
    pub fn next_offset(&self) -> (n: u64)
        requires
            self.wf(),
        ensures
            n == start_of(self@, self@.len() as int),
    {
        let n = self.hdus.len();
        if n == 0 {
            0
        } else {
            self.hdus[n - 1].next_header_offset()
        }
    }

    /// Discovers HDUs until `index` is known. Fails with
    /// `HduIndexOutOfRange(index)` once the next HDU would start at or past
    /// the end of the source (and remembers that), and with the error of a
    /// header that cannot be read. What was discovered before stays.
    pub fn discover_up_to<S: ByteSource + ?Sized>(&mut self, source: &S, index: usize) -> (r: Result<(), FitsError>)
        requires
            old(self).wf(),
        ensures
            final(self).wf(),
            final(self)@.len() >= old(self)@.len(),
            final(self)@.subrange(0, old(self)@.len() as int) == old(self)@,
            old(self)@.len() > index ==> r is Ok && final(self)@ == old(self)@,
            r is Ok ==> final(self)@.len() > index,
            r is Ok && old(self)@.len() <= index ==> final(self)@.len() == index + 1,
            old(self).spec_exhausted() ==> final(self).spec_exhausted(),
            old(self).spec_exhausted() && old(self)@.len() <= index ==> r == Err::<(), FitsError>(
                FitsError::HduIndexOutOfRange(index),
            ),
            final(self).spec_exhausted() && !old(self).spec_exhausted() ==> start_of(final(self)@, final(self)@.len() as int)
                >= source.bytes().len(),
            r matches Err(FitsError::HduIndexOutOfRange(i)) ==> i == index && final(self).spec_exhausted(),
            old(self)@.len() <= index && start_of(old(self)@, old(self)@.len() as int) >= source.bytes().len()
                ==> r == Err::<(), FitsError>(FitsError::HduIndexOutOfRange(index)),
            forall|k: int|
                old(self)@.len() <= k < final(self)@.len() ==> (#[trigger] final(self)@[k]).header_offset
                    < source.bytes().len(),
            old(self).spec_exhausted() ==> final(self)@ == old(self)@,
            old(self)@.len() <= index && start_of(old(self)@, old(self)@.len() as int) >= source.bytes().len()
                ==> final(self)@ == old(self)@,
            r is Err && !(r->Err_0 is HduIndexOutOfRange) ==> !final(self).spec_exhausted() && start_of(
                final(self)@,
                final(self)@.len() as int,
            ) < source.bytes().len() && discovery_error(
                source.bytes(),
                start_of(final(self)@, final(self)@.len() as int),
                r->Err_0,
            ),
    {
        let ghost start = self.hdus@;
        loop
            invariant
                start == old(self).hdus@,
                chained(self.hdus@),
                self.hdus@.len() >= start.len(),
                start.len() <= index ==> self.hdus@.len() <= index + 1,
                self.hdus@.subrange(0, start.len() as int) == start,
                start.len() > index ==> self.hdus@ == start,
                start.len() <= index && start_of(start, start.len() as int) >= source.bytes().len() ==> self.hdus@
                    == start,
                old(self).exhausted ==> self.exhausted && self.hdus@ == start,
                self.exhausted && !old(self).exhausted ==> start_of(self.hdus@, self.hdus@.len() as int)
                    >= source.bytes().len(),
                forall|k: int|
                    start.len() <= k < self.hdus@.len() ==> (#[trigger] self.hdus@[k]).header_offset
                        < source.bytes().len(),
            ensures
                self.hdus@.len() > index,
                start.len() <= index ==> self.hdus@.len() == index + 1,
            decreases index + 1 - self.hdus@.len(),
        {
            if self.hdus.len() > index {
                break;
            }
            if self.exhausted {
                return Err(FitsError::HduIndexOutOfRange(index));
            }
            let have = self.hdus.len();
            let next = self.next_offset();
            if next >= source.len() {
                self.exhausted = true;
                return Err(FitsError::HduIndexOutOfRange(index));
            }
            let hdu = discover_at(source, next, have == 0)?;
            let ghost before = self.hdus@;
            self.hdus.push(hdu);
            proof {
                lemma_chain_push(before, hdu, start.len() as int, source.bytes().len() as int);
            }
        }
        Ok(())
    }

    /// Discovers every HDU of the source and returns their number.
    #[verifier::rlimit(40)]
    pub fn count_all<S: ByteSource + ?Sized>(&mut self, source: &S) -> (r: Result<usize, FitsError>)
        requires
            old(self).wf(),
        ensures
            final(self).wf(),
            final(self)@.len() >= old(self)@.len(),
            final(self)@.subrange(0, old(self)@.len() as int) == old(self)@,
            r matches Ok(n) ==> n == final(self)@.len() && final(self).spec_exhausted(),
            r is Ok && !old(self).spec_exhausted() ==> start_of(final(self)@, final(self)@.len() as int)
                >= source.bytes().len(),
            old(self).spec_exhausted() ==> r == Ok::<usize, FitsError>(old(self)@.len() as usize) && final(self)@
                == old(self)@,
            start_of(old(self)@, old(self)@.len() as int) >= source.bytes().len() ==> r == Ok::<usize, FitsError>(
                old(self)@.len() as usize,
            ) && final(self)@ == old(self)@,
            r is Err ==> !(r->Err_0 is HduIndexOutOfRange) && !final(self).spec_exhausted() && start_of(
                final(self)@,
                final(self)@.len() as int,
            ) < source.bytes().len() && discovery_error(
                source.bytes(),
                start_of(final(self)@, final(self)@.len() as int),
                r->Err_0,
            ),
    {
        let ghost first = self.hdus@;
        loop
            invariant
                first == old(self).hdus@,
                self.wf(),
                self.hdus@.len() >= first.len(),
                self.hdus@.subrange(0, first.len() as int) == first,
                old(self).exhausted ==> self.exhausted && self.hdus@ == first,
                start_of(first, first.len() as int) >= source.bytes().len() ==> self.hdus@ == first,
                self.exhausted && !old(self).exhausted ==> start_of(self.hdus@, self.hdus@.len() as int)
                    >= source.bytes().len(),
            decreases remaining(self.hdus@, source.bytes().len() as int),
        {
            let ghost before = self.hdus@;
            let index = self.hdus.len();
            match self.discover_up_to(source, index) {
                Ok(()) => {
                    proof {
                        lemma_progress(before, self.hdus@, source.bytes().len() as int);
                        assert(self.hdus@.subrange(0, first.len() as int) =~= self.hdus@.subrange(
                            0,
                            before.len() as int,
                        ).subrange(0, first.len() as int));
                    }
                },
                Err(FitsError::HduIndexOutOfRange(_)) => {
                    return Ok(self.hdus.len());
                },
                Err(e) => {
                    return Err(e);
                },
            }
        }
    }
}

/// Lazy HDU navigation over a byte source. Opening reads the primary
/// header only; asking for HDU `n` discovers HDUs `0..=n` (headers only,
/// never data) and keeps them, so a repeated request does not re-scan.
pub struct FitsReader<S: ByteSource> {
    source: S,
    index: HduIndex,
}

impl<S: ByteSource> FitsReader<S> {
    /// The HDUs discovered so far, in file order.
    pub closed spec fn discovered_hdus(&self) -> Seq<DiscoveredHdu> {
        self.index@
    }

    /// The bytes of the underlying source.
    pub closed spec fn source_bytes(&self) -> Seq<u8> {
        self.source.bytes()
    }

    /// Discovery has run off the end of the source.
    pub closed spec fn spec_exhausted(&self) -> bool {
        self.index.spec_exhausted()
    }

    /// The primary HDU is known, the discovered HDUs chain, and discovery
    /// has run off the end only when the next HDU would start past it.
    pub closed spec fn wf(&self) -> bool {
        &&& self.index.wf()
        &&& self.index@.len() >= 1
        &&& self.index.spec_exhausted() ==> start_of(self.index@, self.index@.len() as int) >= self.source.bytes().len()
    }

    /// Wraps a source and discovers its primary HDU, failing as that
    /// discovery fails (an empty source has no primary HDU).
    pub fn from_source(source: S) -> (r: Result<Self, FitsError>)
        ensures
            r matches Ok(x) ==> x.wf() && x.discovered_hdus().len() == 1 && x.source_bytes() == source.bytes()
                && x.discovered_hdus()[0].header_offset == 0 && x.discovered_hdus()[0].kind is Primary,
            source.bytes().len() == 0 ==> r == Err::<Self, FitsError>(FitsError::HduIndexOutOfRange(0)),
    {
        let mut index = HduIndex::new();
        match index.discover_up_to(&source, 0) {
            Ok(()) => {
                proof {
                    assert(index@[0].header_offset == start_of(index@, 0));
                }
                Ok(FitsReader { source, index })
            },
            Err(e) => Err(e),
        }
    }

    /// The HDU at `index` (0 = primary), discovering `0..=index` if not yet
    /// known. Fails with `HduIndexOutOfRange(index)` past the last HDU.
    pub fn hdu(&mut self, index: usize) -> (r: Result<&DiscoveredHdu, FitsError>)
        requires
            old(self).wf(),
        ensures
            final(self).wf(),
            final(self).source_bytes() == old(self).source_bytes(),
            final(self).discovered_hdus().subrange(0, old(self).discovered_hdus().len() as int)
                == old(self).discovered_hdus(),
            old(self).discovered_hdus().len() > index ==> final(self).discovered_hdus() == old(self).discovered_hdus() && r is Ok,
            r matches Ok(h) ==> index < final(self).discovered_hdus().len() && *h == final(self).discovered_hdus()[index as int],
            r is Ok && old(self).discovered_hdus().len() <= index ==> final(self).discovered_hdus().len()
                == index + 1,
            r matches Err(FitsError::HduIndexOutOfRange(i)) ==> i == index && final(self).spec_exhausted(),
    {
        let res = self.index.discover_up_to(&self.source, index);
        match res {
            Ok(()) => Ok(self.index.get(index)),
            Err(e) => Err(e),
        }
    }

    /// The primary HDU, discovered when the reader was made.
    pub fn primary(&self) -> (h: &DiscoveredHdu)
        requires
            self.wf(),
        ensures
            *h == self.discovered_hdus()[0],
    {
        self.index.get(0)
    }

    /// How many HDUs have been discovered so far.
    pub fn discovered(&self) -> (n: usize)
        ensures
            n == self.discovered_hdus().len(),
    {
        self.index.len()
    }

    /// The total HDU count; discovers every HDU of the source.
    pub fn hdu_count(&mut self) -> (r: Result<usize, FitsError>)
        requires
            old(self).wf(),
        ensures
            final(self).wf(),
            final(self).source_bytes() == old(self).source_bytes(),
            final(self).discovered_hdus().subrange(0, old(self).discovered_hdus().len() as int)
                == old(self).discovered_hdus(),
            r matches Ok(n) ==> n == final(self).discovered_hdus().len() && final(self).spec_exhausted(),
            r is Ok ==> start_of(final(self).discovered_hdus(), final(self).discovered_hdus().len() as int)
                >= final(self).source_bytes().len(),
            start_of(old(self).discovered_hdus(), old(self).discovered_hdus().len() as int)
                >= old(self).source_bytes().len() ==> r == Ok::<usize, FitsError>(
                old(self).discovered_hdus().len() as usize,
            ) && final(self).discovered_hdus() == old(self).discovered_hdus(),
            r is Err ==> !(r->Err_0 is HduIndexOutOfRange) && start_of(
                final(self).discovered_hdus(),
                final(self).discovered_hdus().len() as int,
            ) < final(self).source_bytes().len() && discovery_error(
                final(self).source_bytes(),
                start_of(final(self).discovered_hdus(), final(self).discovered_hdus().len() as int),
                r->Err_0,
            ),
    {
        self.index.count_all(&self.source)
    }

    /// The HDUs a reader has discovered chain through the file: the first
    /// is the primary HDU at offset zero, each later one starts where the
    /// previous one's padded data ends, and each data unit follows its
    /// header.
    pub proof fn lemma_discovered_chain(&self)
        requires
            self.wf(),
        ensures
            chained(self.discovered_hdus()),
            self.discovered_hdus()[0].header_offset == 0,
            self.discovered_hdus()[0].kind is Primary,
    {
        assert(self.index@[0].header_offset == start_of(self.index@, 0));
    }

    /// The underlying source.
    pub fn source(&self) -> (s: &S)
        ensures
            s.bytes() == self.source_bytes(),
    {
        &self.source
    }
}

/// How much of a source lies past the HDUs discovered so far.
pub open spec fn remaining(h: Seq<DiscoveredHdu>, len: int) -> int {
    let s = start_of(h, h.len() as int);
    if s >= len {
        0
    } else {
        len - s
    }
}

/// Discovering one more HDU, which starts inside the source, leaves less of
/// the source to discover.
proof fn lemma_progress(before: Seq<DiscoveredHdu>, after: Seq<DiscoveredHdu>, len: int)
    requires
        chained(after),
        after.len() == before.len() + 1,
        after.subrange(0, before.len() as int) == before,
        after[before.len() as int].header_offset < len,
    ensures
        remaining(after, len) < remaining(before, len),
{
    let n = before.len() as int;
    assert(after[n].header_offset == start_of(after, n));
    if n > 0 {
        assert(after[n - 1] == after.subrange(0, n)[n - 1]);
    }
    assert(start_of(after, n) == start_of(before, n));
    assert(after[n].data_offset >= after[n].header_offset + 2880);
}


/// One HDU discovered at `offset`, with what the index relies on.
fn discover_at<S: ByteSource + ?Sized>(source: &S, offset: u64, is_primary: bool) -> (r: Result<DiscoveredHdu, FitsError>)
    ensures
        r matches Ok(h) ==> h.header_offset == offset && h.data_offset + h.data_padded_len <= u64::MAX
            && h.data_offset >= h.header_offset + 2880 && (is_primary ==> h.kind is Primary),
        r is Err ==> !(r matches Err(FitsError::HduIndexOutOfRange(_))),
        r is Err ==> discovery_error(source.bytes(), offset as int, r->Err_0),
{
    let r = discover_one(source, offset, is_primary);
    proof {
        if end_position(source.bytes(), offset as int, 0) is Some {
            lemma_end_position_in_range(source.bytes(), offset as int, 0);
            let (blk, j) = end_position(source.bytes(), offset as int, 0)->Some_0;
            let h = merge_from(cards_upto(source.bytes(), offset as int, blk, j), 0);
            lemma_scan_errors(h, naxis_count(h), 1, 1);
        }
    }
    r
}

/// Appending an HDU that starts where the last one ends keeps the chain.
proof fn lemma_chain_push(before: Seq<DiscoveredHdu>, hdu: DiscoveredHdu, fixed: int, len: int)
    requires
        chained(before),
        hdu.header_offset == start_of(before, before.len() as int),
        hdu.data_offset + hdu.data_padded_len <= u64::MAX,
        hdu.data_offset >= hdu.header_offset + 2880,
        before.len() == 0 ==> hdu.kind is Primary,
        hdu.header_offset < len,
        0 <= fixed <= before.len(),
        forall|k: int| fixed <= k < before.len() ==> (#[trigger] before[k]).header_offset < len,
    ensures
        chained(before.push(hdu)),
        forall|k: int| fixed <= k < before.len() + 1 ==> (#[trigger] before.push(hdu)[k]).header_offset < len,
        before.push(hdu).subrange(0, fixed) == before.subrange(0, fixed),
{
    let after = before.push(hdu);
    assert forall|k: int| 0 <= k < after.len() implies {
        &&& (#[trigger] after[k]).header_offset == start_of(after, k)
        &&& after[k].data_offset + after[k].data_padded_len <= u64::MAX
        &&& after[k].data_offset >= after[k].header_offset + 2880
        &&& (k == 0 ==> after[k].kind is Primary)
    } by {
        if k > 0 {
            assert(after[k - 1] == before[k - 1]);
        }
        if k < before.len() {
            assert(after[k] == before[k]);
        }
    }
    assert forall|k: int| fixed <= k < before.len() + 1 implies (#[trigger] after[k]).header_offset < len by {
        if k < before.len() {
            assert(after[k] == before[k]);
        }
    }
    assert(after.subrange(0, fixed) =~= before.subrange(0, fixed));
}

} // verus!
