//! The chain walker: which entries to copy, as a state machine driven by the caller.
//!
//! Three phases run in order. The window scan reads every height from the rooted height
//! up to the temporal height. The scan above the window goes on upward until
//! `MAX_CONSECUTIVE_EMPTY` heights in a row hold no readable entry. The genesis walk
//! starts at the rooted height's entry and follows `prev_hash` links down to height 0,
//! for at most `MAX_CHAIN_ENTRIES` entries. A missing or unreadable entry ends the phase
//! it occurs in; it is reported, not raised.
use vstd::prelude::*;
use crate::decode_spec::decoded;
use crate::entry::{
    entry_fields, entry_prev_hash, extract_metadata, extract_prev_hash, is_zero_hash, PrevLink,
};
use crate::external::{blake3_digest, hex_ascii, hex_bytes};

verus! {

/// Consecutive empty heights that end the scan above the window.
pub const MAX_CONSECUTIVE_EMPTY: u64 = 5;

/// The most entries that the genesis walk records.
pub const MAX_CHAIN_ENTRIES: u64 = 1000;

/// The ASCII decimal digits of `n`.
pub open spec fn decimal(n: nat) -> Seq<u8>
    decreases n,
{
    if n < 10 {
        seq![(48 + n) as u8]
    } else {
        decimal(n / 10) + seq![(48 + n % 10) as u8]
    }
}

pub fn decimal_bytes(n: u64) -> (r: Vec<u8>)
    ensures
        r@ == decimal(n as nat),
    decreases n,
{
    if n < 10 {
        let r = vec![(48 + n) as u8];
        assert(r@ =~= decimal(n as nat));
        r
    } else {
        let mut r = decimal_bytes(n / 10);
        r.push((48 + n % 10) as u8);
        assert(r@ =~= decimal(n as nat));
        r
    }
}

/// The prefix of every height-index key at height `h`: its decimal digits and a colon.
pub open spec fn height_prefix_of(h: nat) -> Seq<u8> {
    decimal(h) + seq![58u8]
}

/// An index key: a height or a slot in decimal, a colon, the content hash in hex.
pub open spec fn index_key(n: nat, hash: Seq<u8>) -> Seq<u8> {
    decimal(n) + seq![58u8] + hex_ascii(hash)
}

pub fn height_prefix(h: u64) -> (r: Vec<u8>)
    ensures
        r@ == height_prefix_of(h as nat),
{
    let mut r = decimal_bytes(h);
    r.push(58u8);
    r
}

/// Whether an index key belongs to height `h`.
pub fn key_at_height(key: &Vec<u8>, h: u64) -> (r: bool)
    ensures
        r == (key@.len() >= height_prefix_of(h as nat).len() && key@.subrange(
            0,
            height_prefix_of(h as nat).len() as int,
        ) == height_prefix_of(h as nat)),
{
    let p = height_prefix(h);
    if key.len() < p.len() {
        return false;
    }
    let mut i: usize = 0;
    while i < p.len()
        invariant
            i <= p.len(),
            p.len() <= key.len(),
            p@ == height_prefix_of(h as nat),
            forall|j: int| 0 <= j < i ==> key@[j] == p@[j],
        decreases p.len() - i,
    {
        if key[i] != p[i] {
            assert(key@.subrange(0, p.len() as int)[i as int] != p@[i as int]);
            return false;
        }
        i += 1;
    }
    assert(key@.subrange(0, p.len() as int) =~= p@);
    true
}

pub fn index_key_bytes(n: u64, hash: &Vec<u8>) -> (r: Vec<u8>)
    ensures
        r@ == index_key(n as nat, hash@),
{
    let mut r = height_prefix(n);
    let h = hex_bytes(hash);
    crate::wire::push_bytes(&mut r, &h);
    r
}

/// The stores that the walker writes to.
#[derive(Clone, Copy, Debug, PartialEq, Eq, Structural)]
pub enum Target {
    /// Entries by content hash.
    Entry,
    /// The height index.
    EntryByHeight,
    /// The slot index.
    EntryBySlot,
}

/// One record to put into the target.
pub struct StoreWrite {
    pub target: Target,
    pub key: Vec<u8>,
    pub value: Vec<u8>,
}

pub type WriteView = (Target, Seq<u8>, Seq<u8>);

pub open spec fn writes_view(ws: Seq<StoreWrite>) -> Seq<WriteView> {
    ws.map_values(|w: StoreWrite| (w.target, w.key@, w.value@))
}

pub open spec fn pairs_view(s: Seq<(Vec<u8>, Vec<u8>)>) -> Seq<(Seq<u8>, Seq<u8>)> {
    s.map_values(|p: (Vec<u8>, Vec<u8>)| (p.0@, p.1@))
}

pub open spec fn keys_view(s: Seq<Vec<u8>>) -> Seq<Seq<u8>> {
    s.map_values(|v: Vec<u8>| v@)
}

/// The writes that copy one readable entry: the entry, and its two index records.
pub open spec fn entry_writes(key: Seq<u8>, entry: Seq<u8>) -> Seq<WriteView> {
    match entry_fields(entry) {
        Some((h, s, hb)) => {
            let d = blake3_digest(hb);
            seq![
                (Target::Entry, key, entry),
                (Target::EntryByHeight, index_key(h as nat, d), d),
                (Target::EntryBySlot, index_key(s as nat, d), d),
            ]
        },
        None => Seq::empty(),
    }
}

/// The writes for the readable entries among `found`, in order.
pub open spec fn found_writes(found: Seq<(Seq<u8>, Seq<u8>)>) -> Seq<WriteView>
    decreases found.len(),
{
    if found.len() == 0 {
        Seq::empty()
    } else {
        found_writes(found.drop_last()) + entry_writes(found.last().0, found.last().1)
    }
}

/// The keys of the readable entries among `found`, in order.
pub open spec fn readable_keys(found: Seq<(Seq<u8>, Seq<u8>)>) -> Seq<Seq<u8>>
    decreases found.len(),
{
    if found.len() == 0 {
        Seq::empty()
    } else if entry_fields(found.last().1) is Some {
        readable_keys(found.drop_last()).push(found.last().0)
    } else {
        readable_keys(found.drop_last())
    }
}

/// Appends the writes for one entry; returns whether it was readable.
fn push_entry_writes(key: &Vec<u8>, entry: &Vec<u8>, out: &mut Vec<StoreWrite>) -> (r: bool)
    ensures
        writes_view(final(out)@) == writes_view(old(out)@) + entry_writes(key@, entry@),
        r == entry_fields(entry@) is Some,
{
    let ghost before = out@;
    match extract_metadata(entry) {
        Some(m) => {
            let k1 = index_key_bytes(m.height, &m.hash);
            let k2 = index_key_bytes(m.slot, &m.hash);
            let h1 = crate::wire::slice_copy(&m.hash, 0, m.hash.len());
            let h2 = crate::wire::slice_copy(&m.hash, 0, m.hash.len());
            let e = crate::wire::slice_copy(entry, 0, entry.len());
            let k = crate::wire::slice_copy(key, 0, key.len());
            assert(h1@ =~= m.hash@ && h2@ =~= m.hash@ && e@ =~= entry@ && k@ =~= key@);
            out.push(StoreWrite { target: Target::Entry, key: k, value: e });
            out.push(StoreWrite { target: Target::EntryByHeight, key: k1, value: h1 });
            out.push(StoreWrite { target: Target::EntryBySlot, key: k2, value: h2 });
            assert(writes_view(out@) =~= writes_view(before) + entry_writes(key@, entry@));
            true
        },
        None => {
            assert(writes_view(out@) =~= writes_view(before) + entry_writes(key@, entry@));
            false
        },
    }
}

/// Where the walk is.
#[derive(Clone, Copy, Debug, PartialEq, Eq, Structural)]
pub enum Phase {
    Window,
    Above,
    Genesis,
    Done,
}

/// Why the genesis walk ended.
#[derive(Clone, Copy, Debug, PartialEq, Eq, Structural)]
pub enum WalkStop {
    /// It recorded the entry at height 0, or one whose predecessor is the genesis hash.
    ReachedGenesis,
    /// It recorded `MAX_CHAIN_ENTRIES` entries.
    ChainLimit,
    /// The height index holds no entry at this height.
    MissingEntry(u64),
    /// The entry found at this height does not decode or lacks a field.
    UnreadableEntry(u64),
    /// The entry at this height has no usable link to a lower entry.
    BrokenLink(u64),
}

/// What the walker needs next.
pub enum Request {
    /// Every entry that the height index lists at this height.
    EntriesAt(u64),
    /// The first entry that the height index lists at this height.
    FirstEntryAt(u64),
    /// The entry with this content hash.
    EntryByHash(Vec<u8>),
    /// Nothing: the walk is over.
    Finished,
}

/// The walker's state.
pub struct Walker {
    pub temporal: u64,
    pub rooted: u64,
    pub phase: Phase,
    /// The height being read.
    pub height: u64,
    /// Consecutive empty heights seen above the window.
    pub empty_run: u64,
    /// Entries that the genesis walk recorded.
    pub chain_len: u64,
    /// In the genesis walk: the hash of the predecessor being resolved, if any.
    pub pending: Option<Vec<u8>>,
    /// Keys of the entries selected by the two scans: the set whose dependent
    /// records are copied.
    pub selected: Vec<Vec<u8>>,
    /// Keys of the entries that the genesis walk recorded.
    pub chain: Vec<Vec<u8>>,
    pub stop: Option<WalkStop>,
}

impl Walker {
    /// The phase that follows the window and the scan above it.
    pub open spec fn genesis_start(self) -> bool {
        &&& self.phase == Phase::Genesis
        &&& self.height == self.rooted
        &&& self.pending is None
    }

    /// A walker for the window `[rooted, temporal]`.
    pub fn new(temporal: u64, rooted: u64) -> (w: Walker)
        requires
            rooted <= temporal,
        ensures
            w.temporal == temporal,
            w.rooted == rooted,
            w.phase == Phase::Window,
            w.height == rooted,
            w.empty_run == 0,
            w.chain_len == 0,
            w.pending is None,
            w.selected@.len() == 0,
            w.chain@.len() == 0,
            w.stop is None,
    {
        Walker {
            temporal,
            rooted,
            phase: Phase::Window,
            height: rooted,
            empty_run: 0,
            chain_len: 0,
            pending: None,
            selected: Vec::new(),
            chain: Vec::new(),
            stop: None,
        }
    }

    /// What to read next.
    pub fn request(&self) -> (r: Request)
        ensures
            (self.phase == Phase::Window || self.phase == Phase::Above) ==> r == Request::EntriesAt(
                self.height,
            ),
            self.phase == Phase::Genesis && self.pending is None ==> r == Request::FirstEntryAt(
                self.height,
            ),
            self.phase == Phase::Genesis && self.pending is Some ==> (r matches Request::EntryByHash(
                h,
            ) && h@ == self.pending->0@),
            self.phase == Phase::Done ==> r is Finished,
    {
        match self.phase {
            Phase::Window | Phase::Above => Request::EntriesAt(self.height),
            Phase::Genesis => match &self.pending {
                None => Request::FirstEntryAt(self.height),
                Some(h) => {
                    let c = crate::wire::slice_copy(h, 0, h.len());
                    assert(c@ =~= h@);
                    Request::EntryByHash(c)
                },
            },
            Phase::Done => Request::Finished,
        }
    }

    /// Takes the entries found at the current height of a scan (key and encoded
    /// entry each), selects the readable ones, and moves on; returns the writes
    /// that copy them.
    pub fn on_entries(&mut self, found: &Vec<(Vec<u8>, Vec<u8>)>) -> (ws: Vec<StoreWrite>)
        requires
            old(self).phase == Phase::Window || old(self).phase == Phase::Above,
            old(self).rooted <= old(self).height,
            old(self).phase == Phase::Window ==> old(self).height <= old(self).temporal,
        ensures
            writes_view(ws@) == found_writes(pairs_view(found@)),
            keys_view(final(self).selected@) == keys_view(old(self).selected@) + readable_keys(
                pairs_view(found@),
            ),
            final(self).chain@ == old(self).chain@,
            final(self).chain_len == old(self).chain_len,
            final(self).temporal == old(self).temporal,
            final(self).rooted == old(self).rooted,
            final(self).stop == old(self).stop,
            final(self).pending is None,
            old(self).phase == Phase::Window ==> if old(self).height < old(self).temporal {
                final(self).phase == Phase::Window && final(self).height == old(self).height + 1
            } else if old(self).temporal < u64::MAX {
                final(self).phase == Phase::Above && final(self).height == old(self).temporal + 1
                    && final(self).empty_run == 0
            } else {
                final(self).genesis_start()
            },
            old(self).phase == Phase::Above ==> {
                let run = if readable_keys(pairs_view(found@)).len() > 0 {
                    0
                } else {
                    old(self).empty_run + 1
                };
                if run >= MAX_CONSECUTIVE_EMPTY || old(self).height == u64::MAX {
                    final(self).genesis_start()
                } else {
                    final(self).phase == Phase::Above && final(self).height == old(self).height + 1
                        && final(self).empty_run == run
                }
            },
    {
        let ghost fv = pairs_view(found@);
        let ghost sel0 = keys_view(self.selected@);
        let mut ws: Vec<StoreWrite> = Vec::new();
        let mut n_read: u64 = 0;
        let mut i: usize = 0;
        assert(fv.take(0) =~= Seq::<(Seq<u8>, Seq<u8>)>::empty());
        assert(keys_view(self.selected@) =~= sel0 + readable_keys(fv.take(0)));
        while i < found.len()
            invariant
                i <= found.len(),
                fv == pairs_view(found@),
                writes_view(ws@) == found_writes(fv.take(i as int)),
                keys_view(self.selected@) == sel0 + readable_keys(fv.take(i as int)),
                n_read as int == readable_keys(fv.take(i as int)).len(),
                n_read <= i,
                self.chain@ == old(self).chain@,
                self.chain_len == old(self).chain_len,
                self.phase == old(self).phase,
                self.height == old(self).height,
                self.temporal == old(self).temporal,
                self.rooted == old(self).rooted,
                self.stop == old(self).stop,
                self.empty_run == old(self).empty_run,
            decreases found.len() - i,
        {
            let ghost sel_before = self.selected@;
            let readable = push_entry_writes(&found[i].0, &found[i].1, &mut ws);
            if readable {
                let k = crate::wire::slice_copy(&found[i].0, 0, found[i].0.len());
                assert(k@ =~= found[i as int].0@);
                self.selected.push(k);
                n_read = n_read + 1;
            }
            proof {
                assert(fv.take(i + 1).drop_last() =~= fv.take(i as int));
                assert(fv.take(i + 1).last() == (found[i as int].0@, found[i as int].1@));
                let rk = readable_keys(fv.take(i as int));
                if readable {
                    assert(keys_view(self.selected@) =~= keys_view(sel_before).push(found[i as int].0@));
                    assert(readable_keys(fv.take(i + 1)) == rk.push(found[i as int].0@));
                    assert(keys_view(self.selected@) =~= sel0 + readable_keys(fv.take(i + 1)));
                } else {
                    assert(readable_keys(fv.take(i + 1)) == rk);
                }
            }
            i += 1;
        }
        assert(fv.take(found.len() as int) =~= fv);
        if self.phase == Phase::Window {
            if self.height < self.temporal {
                self.height = self.height + 1;
            } else if self.temporal < u64::MAX {
                self.phase = Phase::Above;
                self.height = self.temporal + 1;
                self.empty_run = 0;
            } else {
                self.phase = Phase::Genesis;
                self.height = self.rooted;
            }
        } else {
            let run = if n_read > 0 { 0 } else { self.empty_run.saturating_add(1) };
            proof {
                if n_read == 0 && self.empty_run == u64::MAX {
                    assert(run >= MAX_CONSECUTIVE_EMPTY);
                }
            }
            if run >= MAX_CONSECUTIVE_EMPTY || self.height == u64::MAX {
                self.phase = Phase::Genesis;
                self.height = self.rooted;
            } else {
                self.height = self.height + 1;
            }
            self.empty_run = run;
        }
        self.pending = None;
        ws
    }

    /// Takes the first entry that the height index lists at the current height of the
    /// genesis walk, records it if it is readable, and decides the next step.
    pub fn on_first_entry(&mut self, found: Option<(Vec<u8>, Vec<u8>)>) -> (ws: Vec<StoreWrite>)
        requires
            old(self).phase == Phase::Genesis,
            old(self).pending is None,
            old(self).chain_len < MAX_CHAIN_ENTRIES,
        ensures
            final(self).selected@ == old(self).selected@,
            final(self).temporal == old(self).temporal,
            final(self).rooted == old(self).rooted,
            match found {
                None => ws@.len() == 0 && final(self).phase == Phase::Done && final(self).stop
                    == Some(WalkStop::MissingEntry(old(self).height)) && final(self).chain@
                    == old(self).chain@,
                Some((k, e)) => match entry_fields(e@) {
                    None => ws@.len() == 0 && final(self).phase == Phase::Done && final(self).stop
                        == Some(WalkStop::UnreadableEntry(old(self).height)) && final(self).chain@
                        == old(self).chain@,
                    Some((h, s, hb)) => {
                        &&& writes_view(ws@) == entry_writes(k@, e@)
                        &&& keys_view(final(self).chain@) == keys_view(old(self).chain@).push(k@)
                        &&& final(self).chain_len == old(self).chain_len + 1
                        &&& if final(self).chain_len >= MAX_CHAIN_ENTRIES {
                            final(self).phase == Phase::Done && final(self).stop == Some(
                                WalkStop::ChainLimit,
                            )
                        } else if h == 0 {
                            final(self).phase == Phase::Done && final(self).stop == Some(
                                WalkStop::ReachedGenesis,
                            )
                        } else {
                            match entry_prev_hash(decoded(e@)->0) {
                                None => final(self).phase == Phase::Done && final(self).stop
                                    == Some(WalkStop::BrokenLink(h)),
                                Some(p) => if is_zero_hash(p) {
                                    final(self).phase == Phase::Done && final(self).stop == Some(
                                        WalkStop::ReachedGenesis,
                                    )
                                } else {
                                    &&& final(self).phase == Phase::Genesis
                                    &&& final(self).height == h
                                    &&& final(self).pending matches Some(v) && v@ == p
                                },
                            }
                        }
                    },
                },
            },
    {
        let mut ws: Vec<StoreWrite> = Vec::new();
        let (key, entry) = match found {
            None => {
                self.phase = Phase::Done;
                self.stop = Some(WalkStop::MissingEntry(self.height));
                return ws;
            },
            Some(x) => x,
        };
        let meta = match extract_metadata(&entry) {
            None => {
                self.phase = Phase::Done;
                self.stop = Some(WalkStop::UnreadableEntry(self.height));
                return ws;
            },
            Some(m) => m,
        };
        let ghost chain0 = keys_view(self.chain@);
        push_entry_writes(&key, &entry, &mut ws);
        assert(writes_view(Seq::<StoreWrite>::empty()) =~= Seq::<WriteView>::empty());
        self.chain.push(key);
        assert(keys_view(self.chain@) =~= chain0.push(key@));
        self.chain_len = self.chain_len + 1;
        if self.chain_len >= MAX_CHAIN_ENTRIES {
            self.phase = Phase::Done;
            self.stop = Some(WalkStop::ChainLimit);
        } else if meta.height == 0 {
            self.phase = Phase::Done;
            self.stop = Some(WalkStop::ReachedGenesis);
        } else {
            match extract_prev_hash(&entry) {
                PrevLink::Missing => {
                    self.phase = Phase::Done;
                    self.stop = Some(WalkStop::BrokenLink(meta.height));
                },
                PrevLink::Genesis => {
                    self.phase = Phase::Done;
                    self.stop = Some(WalkStop::ReachedGenesis);
                },
                PrevLink::Hash(p) => {
                    self.height = meta.height;
                    self.pending = Some(p);
                },
            }
        }
        ws
    }

    /// Takes the entry that the current entry's `prev_hash` names, if the caller found
    /// it, and moves the genesis walk to its height; a predecessor that is missing,
    /// unreadable or not lower ends the walk.
    pub fn on_prev_entry(&mut self, found: Option<Vec<u8>>)
        requires
            old(self).phase == Phase::Genesis,
            old(self).pending is Some,
        ensures
            final(self).selected@ == old(self).selected@,
            final(self).chain@ == old(self).chain@,
            final(self).chain_len == old(self).chain_len,
            final(self).temporal == old(self).temporal,
            final(self).rooted == old(self).rooted,
            final(self).pending is None,
            match found {
                Some(e) => match entry_fields(e@) {
                    Some((h, _, _)) => if h < old(self).height {
                        final(self).phase == Phase::Genesis && final(self).height == h
                    } else {
                        final(self).phase == Phase::Done && final(self).stop == Some(
                            WalkStop::BrokenLink(old(self).height),
                        )
                    },
                    None => final(self).phase == Phase::Done && final(self).stop == Some(
                        WalkStop::BrokenLink(old(self).height),
                    ),
                },
                None => final(self).phase == Phase::Done && final(self).stop == Some(
                    WalkStop::BrokenLink(old(self).height),
                ),
            },
    {
        self.pending = None;
        let h = match found {
            Some(e) => match crate::entry::entry_header(&e) {
                Some(x) => Some(x.height),
                None => None,
            },
            None => None,
        };
        match h {
            Some(h) => {
                if h < self.height {
                    self.height = h;
                    return ;
                }
            },
            None => {},
        }
        self.phase = Phase::Done;
        self.stop = Some(WalkStop::BrokenLink(self.height));
    }
}

} // verus!
