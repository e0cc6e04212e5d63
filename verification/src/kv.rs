//! The storage engine: lifecycle, mutation path and compaction.
//!
//! [`KvStore`] holds the in-memory images of the live generation files, the
//! key index, the dead-byte counter and a journal of [`Effect`]s describing
//! the file-system writes performed so far.  A thin unverified shell reads
//! the directory, hands the file images to [`KvStore::open`], and replays
//! the drained effects onto real files after each mutation.
//!
//! The engine's view is a map from key bytes to value bytes.  Every public
//! operation's contract pins down the new view, and the well-formedness
//! invariant ties the index to the replay of the current file images, which
//! is what makes the persistence guarantees provable.

use vstd::prelude::*;

verus! {

use vstd::utf8::{encode_utf8, valid_utf8, encode_utf8_valid_utf8, encode_utf8_decode_utf8};
use vstd::string::StrSliceExecFns;
use crate::codec::{Rec, Operation, rec_enc, parse_rec, lemma_parse_enc, lemma_parse_congruent,
    lemma_parse_bounds, encode_put, encode_rm, parse_record, push_bytes, copy_range};
use crate::index::{IndexEntry, find_key, keys_unique, index_matches, lemma_find_key,
    lemma_find_key_same_keys, index_find, index_put, index_remove};
use crate::wal::{LogFile, LiveRec, apply_rec, replay_run, replay_all, live_view, gens_ascending,
    find_gen, entry_valid, map_valid, lemma_run_append, lemma_replay_all_valid,
    lemma_find_gen_props, lemma_replay_all_extend, lemma_replay_push_empty, disk_size};
use crate::KvsError;

/// Compaction is triggered when more than this many dead bytes have
/// accumulated.
pub const COMPACTION_THRESHOLD: u64 = 1024 * 1024;

/// One file-system write the engine performed on its in-memory file
/// images, to be replayed onto the real directory.
pub enum Effect {
    /// Create the empty log file of generation `gen`.
    Create { gen: u64 },
    /// Append `data` to the log file of generation `gen`.
    Append { gen: u64, data: Vec<u8> },
    /// Delete the log file of generation `gen`.
    Delete { gen: u64 },
}

/// Specification-level image of an [`Effect`].
pub enum EffectV {
    Create(u64),
    Append(u64, Seq<u8>),
    Delete(u64),
}

impl View for Effect {
    type V = EffectV;

    open spec fn view(&self) -> EffectV {
        match self {
            Effect::Create { gen } => EffectV::Create(*gen),
            Effect::Append { gen, data } => EffectV::Append(*gen, data@),
            Effect::Delete { gen } => EffectV::Delete(*gen),
        }
    }
}

pub open spec fn effects_view(es: Seq<Effect>) -> Seq<EffectV> {
    Seq::new(es.len(), |i: int| es[i]@)
}

/// Total length of the records the index points at.
pub open spec fn ix_len_sum(ix: Seq<IndexEntry>) -> nat
    decreases ix.len(),
{
    if ix.len() == 0 {
        0
    } else {
        (ix_len_sum(ix.drop_last()) + ix.last().len) as nat
    }
}

/// The persistent key/value store.
pub struct KvStore {
    files: Vec<LogFile>,
    index: Vec<IndexEntry>,
    current_gen: u64,
    uncompacted: u64,
    effects: Vec<Effect>,
}

impl View for KvStore {
    type V = Map<Seq<u8>, Seq<u8>>;

    /// The logical content: key bytes to value bytes.
    closed spec fn view(&self) -> Map<Seq<u8>, Seq<u8>> {
        live_view(replay_all(self.files@))
    }
}

impl KvStore {
    /// The in-memory images of the live generation files, oldest first.
    pub closed spec fn logs(self) -> Seq<LogFile> {
        self.files@
    }

    /// The effects not yet drained by [`KvStore::take_effects`].
    pub closed spec fn pending(self) -> Seq<EffectV> {
        effects_view(self.effects@)
    }

    /// The dead-byte count that drives compaction.
    pub closed spec fn dead_bytes(self) -> nat {
        self.uncompacted as nat
    }

    /// The active (highest, written-to) generation number.
    pub closed spec fn active_gen(self) -> u64 {
        self.current_gen
    }

    /// Total length of the live records.
    pub closed spec fn live_bytes(self) -> nat {
        ix_len_sum(self.index@)
    }

    /// Well-formedness: generations ascend, the active file is fully
    /// decodable, and the index equals the replay of the file images.
    pub closed spec fn wf(self) -> bool {
        &&& self.files@.len() >= 1
        &&& gens_ascending(self.files@)
        &&& self.files@.last().gen == self.current_gen
        &&& replay_run(
            replay_all(self.files@.drop_last()),
            self.files@.last().data@,
            self.files@.last().gen,
            0,
        ).1 == self.files@.last().data@.len()
        &&& keys_unique(self.index@)
        &&& index_matches(self.index@, replay_all(self.files@))
    }

    /// The view is the replay of the current file images: what `get`
    /// returns is exactly what a fresh `open` of these files would serve.
    pub proof fn lemma_view_is_replay(self)
        requires
            self.wf(),
        ensures
            self@ == live_view(replay_all(self.logs())),
    {
    }

    /// Open a store over the given generation file images (oldest first,
    /// as a directory scan with [`sorted_gen_list`] yields them).  A fresh
    /// empty generation becomes the write target.
    pub fn open(files: Vec<LogFile>) -> (r: Result<KvStore, KvsError>)
        requires
            gens_ascending(files@),
        ensures
            match r {
                Ok(s) => {
                    &&& s.wf()
                    &&& s@ == live_view(replay_all(files@))
                    &&& s.logs().len() == files@.len() + 1
                    &&& forall|i: int| 0 <= i < files@.len() ==> s.logs()[i] == files@[i]
                    &&& s.logs().last().data@.len() == 0
                    &&& s.active_gen() == if files@.len() == 0 {
                        1u64
                    } else {
                        (files@.last().gen + 1) as u64
                    }
                    &&& s.pending() =~= seq![EffectV::Create(s.active_gen())]
                },
                Err(e) => {
                    &&& e == KvsError::GenerationOverflow
                    &&& files@.len() > 0
                    &&& files@.last().gen == u64::MAX
                },
            },
    {
        let ghost fs0 = files@;
        let mut index: Vec<IndexEntry> = Vec::new();
        let mut uncompacted: u64 = 0;
        let mut i: usize = 0;
        while i < files.len()
            invariant
                files@ == fs0,
                0 <= i <= fs0.len(),
                keys_unique(index@),
                index_matches(index@, replay_all(fs0.take(i as int))),
            decreases fs0.len() - i,
        {
            let added = load(
                files[i].gen,
                &files[i].data,
                &mut index,
                Ghost(replay_all(fs0.take(i as int))),
            );
            uncompacted = match uncompacted.checked_add(added) {
                Some(v) => v,
                None => u64::MAX,
            };
            proof {
                assert(fs0.take(i + 1).drop_last() =~= fs0.take(i as int));
                assert(fs0.take(i + 1).last() == fs0[i as int]);
            }
            i += 1;
        }
        proof {
            assert(fs0.take(fs0.len() as int) =~= fs0);
        }
        let current_gen: u64 = if files.len() == 0 {
            1
        } else {
            let lg = files[files.len() - 1].gen;
            if lg == u64::MAX {
                return Err(KvsError::GenerationOverflow);
            }
            lg + 1
        };
        let mut fs = files;
        fs.push(LogFile { gen: current_gen, data: Vec::new() });
        proof {
            assert(fs@.last().data@.len() == 0);
            lemma_replay_push_empty(fs0, fs@.last());
            assert(fs@ =~= fs0.push(fs@.last()));
            assert(fs@.drop_last() =~= fs0);
            assert(fs@.last().data@.skip(0) =~= fs@.last().data@);
        }
        let mut effects: Vec<Effect> = Vec::new();
        effects.push(Effect::Create { gen: current_gen });
        let s = KvStore { files: fs, index, current_gen, uncompacted, effects };
        Ok(s)
    }

    /// Drain the journal of file-system writes performed so far.
    pub fn take_effects(&mut self) -> (r: Vec<Effect>)
        requires
            old(self).wf(),
        ensures
            final(self).wf(),
            final(self)@ == old(self)@,
            final(self).logs() == old(self).logs(),
            final(self).active_gen() == old(self).active_gen(),
            final(self).dead_bytes() == old(self).dead_bytes(),
            final(self).live_bytes() == old(self).live_bytes(),
            effects_view(r@) == old(self).pending(),
            final(self).pending() =~= Seq::<EffectV>::empty(),
    {
        let mut out: Vec<Effect> = Vec::new();
        core::mem::swap(&mut out, &mut self.effects);
        out
    }

    /// The current generation file images, for re-opening or persisting.
    pub fn files(&self) -> (r: &Vec<LogFile>)
        ensures
            r@ == self.logs(),
    {
        &self.files
    }

    /// Look the key up and decode its value from the referenced log range.
    pub fn get(&mut self, key: String) -> (r: Result<Option<String>, KvsError>)
        requires
            old(self).wf(),
        ensures
            *final(self) == *old(self),
            final(self).wf(),
            ({
                let kb = encode_utf8(key@);
                match r {
                    Ok(Some(v)) => old(self)@.dom().contains(kb) && encode_utf8(v@) == old(
                        self,
                    )@[kb],
                    Ok(None) => !old(self)@.dom().contains(kb),
                    Err(e) => e == KvsError::ValueNotUtf8 && old(self)@.dom().contains(kb)
                        && !valid_utf8(old(self)@[kb]),
                }
            }),
    {
        let kb = key.as_str().as_bytes_vec();
        let found = index_find(&self.index, &kb);
        match found {
            None => {
                proof {
                    if self@.dom().contains(kb@) {
                        assert(replay_all(self.files@).dom().contains(kb@));
                    }
                }
                Ok(None)
            },
            Some(i) => {
                let e_gen = self.index[i].gen;
                let e_pos = self.index[i].pos;
                let e_len = self.index[i].len;
                let ghost rm = replay_all(self.files@);
                let ghost lr = rm[kb@];
                proof {
                    lemma_replay_all_valid(self.files@);
                    assert(rm.dom().contains(kb@));
                    assert(entry_valid(self.files@, kb@, lr));
                    assert(lr.gen == e_gen && lr.pos == e_pos as int && lr.len == e_len as int);
                    lemma_find_gen_props(self.files@, e_gen);
                }
                let fj = find_file(&self.files, e_gen);
                let file = &self.files[fj];
                let ghost chunk = file.data@.subrange(e_pos as int, e_pos as int + e_len as int);
                proof {
                    lemma_parse_bounds(chunk);
                    assert(forall|x: int|
                        0 <= x < e_len as int ==> chunk[x] == #[trigger] file.data@.skip(
                            e_pos as int,
                        )[x]);
                    lemma_parse_congruent(chunk, file.data@.skip(e_pos as int));
                }
                let parsed = parse_record(&file.data, e_pos);
                match parsed {
                    Some((op, _consumed)) => {
                        match op {
                            Operation::Put { k: _, v } => {
                                proof {
                                    assert(v@ == lr.val);
                                    assert(self@[kb@] == lr.val);
                                    broadcast use encode_utf8_valid_utf8, encode_utf8_decode_utf8;

                                }
                                match string_from_utf8(v) {
                                    Some(sv) => {
                                        proof {
                                            assert(encode_utf8(sv@) == lr.val);
                                        }
                                        Ok(Some(sv))
                                    },
                                    None => Err(KvsError::ValueNotUtf8),
                                }
                            },
                            Operation::Rm { k: _ } => {
                                proof {
                                    assert(false);
                                }
                                Err(KvsError::ValueNotUtf8)
                            },
                        }
                    },
                    None => {
                        proof {
                            assert(false);
                        }
                        Err(KvsError::ValueNotUtf8)
                    },
                }
            },
        }
    }
}

/// The effects one compaction emits: create the two fresh generations,
/// write the snapshot, delete every superseded generation file.
pub open spec fn compaction_evs(
    old_files: Seq<LogFile>,
    g: u64,
    new_files: Seq<LogFile>,
) -> Seq<EffectV> {
    seq![
        EffectV::Create((g + 2) as u64),
        EffectV::Create((g + 1) as u64),
        EffectV::Append((g + 1) as u64, new_files[0].data@),
    ] + Seq::new(old_files.len(), |i: int| EffectV::Delete(old_files[i].gen))
}

/// `ix_len_sum` only depends on the entry lengths.
proof fn lemma_ix_len_sum_same(ix1: Seq<IndexEntry>, ix2: Seq<IndexEntry>)
    requires
        ix1.len() == ix2.len(),
        forall|i: int| 0 <= i < ix1.len() ==> (#[trigger] ix2[i].len) == ix1[i].len,
    ensures
        ix_len_sum(ix2) == ix_len_sum(ix1),
    decreases ix1.len(),
{
    if ix1.len() > 0 {
        assert(forall|i: int|
            0 <= i < ix1.len() - 1 ==> (#[trigger] ix2.drop_last()[i].len) == ix1.drop_last()[i].len);
        lemma_ix_len_sum_same(ix1.drop_last(), ix2.drop_last());
    }
}

/// `a + b`, saturating at the largest counter value.
fn sat_add_u64(a: u64, b: u64) -> (r: u64)
    ensures
        r as nat == if a as nat + b as nat <= u64::MAX as nat {
            a as nat + b as nat
        } else {
            u64::MAX as nat
        },
{
    match a.checked_add(b) {
        Some(v) => v,
        None => u64::MAX,
    }
}

impl KvStore {
    /// Append a `Put` record for `key`/`value` to the active log, point the
    /// index at it, and compact when the dead bytes cross the threshold.
    pub fn set(&mut self, key: String, value: String) -> (r: Result<(), KvsError>)
        requires
            old(self).wf(),
        ensures
            final(self).wf(),
            r is Ok,
            final(self)@ == old(self)@.insert(encode_utf8(key@), encode_utf8(value@)),
            final(self).dead_bytes() > COMPACTION_THRESHOLD as nat ==> old(self).active_gen()
                > u64::MAX - 2,
            ({
                let enc = rec_enc(Rec::Put { k: encode_utf8(key@), v: encode_utf8(value@) });
                let app = seq![EffectV::Append(old(self).active_gen(), enc)];
                ||| {
                    &&& final(self).pending() == old(self).pending() + app
                    &&& final(self).logs().len() == old(self).logs().len()
                    &&& forall|i: int|
                        0 <= i < old(self).logs().len() - 1 ==> final(self).logs()[i] == old(
                            self,
                        ).logs()[i]
                    &&& final(self).logs().last().gen == old(self).active_gen()
                    &&& final(self).logs().last().data@ == old(self).logs().last().data@ + enc
                }
                ||| {
                    &&& final(self).pending() == old(self).pending() + app + compaction_evs(
                        old(self).logs(),
                        old(self).active_gen(),
                        final(self).logs(),
                    )
                    &&& final(self).dead_bytes() == 0
                    &&& disk_size(final(self).logs()) == final(self).live_bytes()
                }
            }),
    {
        let kb = key.as_str().as_bytes_vec();
        let vb = value.as_str().as_bytes_vec();
        let enc = encode_put(&kb, &vb);
        let ghost rec = Rec::Put { k: kb@, v: vb@ };
        proof {
            vstd::std_specs::vec::axiom_spec_len(&kb);
            vstd::std_specs::vec::axiom_spec_len(&vb);
            lemma_parse_enc(rec);
        }
        let gen = self.current_gen;
        let ghost files0 = self.files@;
        let ghost m0 = replay_all(files0);
        let last_i = self.files.len() - 1;
        let mut f = self.files.remove(last_i);
        let pos = f.data.len();
        push_bytes(&mut f.data, &enc, 0, enc.len());
        proof {
            assert(enc@.subrange(0, enc@.len() as int) =~= enc@);
        }
        self.files.push(f);
        proof {
            assert(self.files@.drop_last() =~= files0.drop_last());
            assert(forall|i: int| 0 <= i < files0.len() - 1 ==> self.files@[i] == files0[i]);
            assert(self.files@.last().gen == files0.last().gen);
            assert(self.files@.last().data@ == files0.last().data@ + enc@);
            lemma_replay_all_extend(files0, self.files@, enc@, rec);
            assert(gens_ascending(self.files@)) by {
                assert(forall|i: int|
                    0 <= i < files0.len() ==> (#[trigger] self.files@[i].gen) == files0[i].gen);
            }
        }
        let ghost lr = LiveRec { gen, pos: pos as int, len: enc@.len() as int, val: vb@ };
        let elen = enc.len();
        let old_len = index_put(&mut self.index, kb, gen, pos, elen, Ghost(m0), Ghost(lr));
        match old_len {
            Some(l) => {
                self.uncompacted = sat_add_u64(self.uncompacted, l as u64);
            },
            None => {},
        }
        let ghost eff0 = self.effects@;
        self.effects.push(Effect::Append { gen, data: enc });
        proof {
            assert(live_view(replay_all(self.files@)) =~= live_view(m0).insert(kb@, vb@));
            assert(effects_view(self.effects@) =~= effects_view(eff0) + seq![
                EffectV::Append(gen, rec_enc(rec)),
            ]);
        }
        if self.uncompacted > COMPACTION_THRESHOLD && self.current_gen <= u64::MAX - 2 {
            self.compact();
        }
        Ok(())
    }

    /// Append an `Rm` record for `key` and drop it from the index; fails
    /// with `KeyNotFound`, writing nothing, when the key is absent.
    pub fn remove(&mut self, key: String) -> (r: Result<(), KvsError>)
        requires
            old(self).wf(),
        ensures
            final(self).wf(),
            ({
                let kb = encode_utf8(key@);
                if old(self)@.dom().contains(kb) {
                    &&& r is Ok
                    &&& final(self)@ == old(self)@.remove(kb)
                    &&& final(self).pending() == old(self).pending() + seq![
                        EffectV::Append(old(self).active_gen(), rec_enc(Rec::Rm { k: kb })),
                    ]
                    &&& final(self).logs().len() == old(self).logs().len()
                    &&& forall|i: int|
                        0 <= i < old(self).logs().len() - 1 ==> final(self).logs()[i] == old(
                            self,
                        ).logs()[i]
                    &&& final(self).logs().last().gen == old(self).active_gen()
                    &&& final(self).logs().last().data@ == old(self).logs().last().data@
                        + rec_enc(Rec::Rm { k: kb })
                } else {
                    &&& r == Err::<(), KvsError>(KvsError::KeyNotFound)
                    &&& *final(self) == *old(self)
                }
            }),
    {
        let kb = key.as_str().as_bytes_vec();
        let found = index_find(&self.index, &kb);
        match found {
            None => {
                proof {
                    if self@.dom().contains(kb@) {
                        assert(replay_all(self.files@).dom().contains(kb@));
                    }
                }
                Err(KvsError::KeyNotFound)
            },
            Some(_) => {
                let enc = encode_rm(&kb);
                let ghost rec = Rec::Rm { k: kb@ };
                proof {
                    vstd::std_specs::vec::axiom_spec_len(&kb);
                    lemma_parse_enc(rec);
                }
                let gen = self.current_gen;
                let ghost files0 = self.files@;
                let ghost m0 = replay_all(files0);
                let last_i = self.files.len() - 1;
                let mut f = self.files.remove(last_i);
                push_bytes(&mut f.data, &enc, 0, enc.len());
                proof {
                    assert(enc@.subrange(0, enc@.len() as int) =~= enc@);
                }
                self.files.push(f);
                proof {
                    assert(self.files@.drop_last() =~= files0.drop_last());
                    assert(forall|i: int|
                        0 <= i < files0.len() - 1 ==> self.files@[i] == files0[i]);
                    assert(self.files@.last().gen == files0.last().gen);
                    assert(self.files@.last().data@ == files0.last().data@ + enc@);
                    lemma_replay_all_extend(files0, self.files@, enc@, rec);
                    assert(gens_ascending(self.files@)) by {
                        assert(forall|i: int|
                            0 <= i < files0.len() ==> (#[trigger] self.files@[i].gen)
                                == files0[i].gen);
                    }
                }
                let removed = index_remove(&mut self.index, &kb, Ghost(m0));
                match removed {
                    Some(l) => {
                        self.uncompacted = sat_add_u64(self.uncompacted, l as u64);
                    },
                    None => {},
                }
                let elen = enc.len();
                self.uncompacted = sat_add_u64(self.uncompacted, elen as u64);
                let ghost eff0 = self.effects@;
                self.effects.push(Effect::Append { gen, data: enc });
                proof {
                    assert(live_view(replay_all(self.files@)) =~= live_view(m0).remove(kb@));
                    assert(effects_view(self.effects@) =~= effects_view(eff0) + seq![
                        EffectV::Append(gen, rec_enc(rec)),
                    ]);
                }
                Ok(())
            },
        }
    }

    /// Copy every live record into a fresh snapshot generation, retarget
    /// the index at it, drop all older generations, and open a new empty
    /// active generation.  The logical content does not change, and
    /// afterwards the files hold live records only.
    fn compact(&mut self)
        requires
            old(self).wf(),
            old(self).current_gen <= u64::MAX - 2,
        ensures
            final(self).wf(),
            final(self)@ == old(self)@,
            final(self).active_gen() == old(self).active_gen() + 2,
            final(self).dead_bytes() == 0,
            final(self).logs().len() == 2,
            final(self).logs()[1].data@.len() == 0,
            final(self).live_bytes() == old(self).live_bytes(),
            disk_size(final(self).logs()) == final(self).live_bytes(),
            final(self).pending() == old(self).pending() + compaction_evs(
                old(self).logs(),
                old(self).active_gen(),
                final(self).logs(),
            ),
    {
        let compaction_gen = self.current_gen + 1;
        let new_gen = self.current_gen + 2;
        let ghost files0 = self.files@;
        let ghost rm = replay_all(files0);
        let ghost ix0 = self.index@;
        proof {
            lemma_replay_all_valid(files0);
        }
        let mut snap: Vec<u8> = Vec::new();
        let mut new_pos: usize = 0;
        let ghost mut mcur = Map::<Seq<u8>, LiveRec>::empty();
        let mut i: usize = 0;
        proof {
            assert(snap@.skip(0) =~= snap@);
            assert(ix0.take(0) =~= Seq::<IndexEntry>::empty());
        }
        while i < self.index.len()
            invariant
                old(self).wf(),
                self.files@ == files0,
                files0 == old(self).files@,
                ix0 == old(self).index@,
                compaction_gen == old(self).current_gen + 1,
                rm == replay_all(files0),
                map_valid(files0, rm),
                keys_unique(ix0),
                index_matches(ix0, rm),
                gens_ascending(files0),
                self.effects@ == old(self).effects@,
                self.current_gen == old(self).current_gen,
                self.index@.len() == ix0.len(),
                0 <= i <= ix0.len(),
                forall|j: int| i <= j < ix0.len() ==> #[trigger] self.index@[j] == ix0[j],
                forall|j: int|
                    0 <= j < i ==> (#[trigger] self.index@[j]).key@ == ix0[j].key@
                        && self.index@[j].gen == compaction_gen
                        && self.index@[j].len == ix0[j].len,
                snap@.len() == new_pos,
                new_pos as nat == ix_len_sum(ix0.take(i as int)),
                replay_run(Map::empty(), snap@, compaction_gen, 0).0 == mcur,
                replay_run(Map::empty(), snap@, compaction_gen, 0).1 == snap@.len(),
                forall|k: Seq<u8>| #[trigger]
                    mcur.dom().contains(k) ==> find_key(ix0.take(i as int), k) >= 0,
                forall|j: int|
                    0 <= j < i ==> mcur.dom().contains((#[trigger] ix0[j]).key@)
                        && mcur[ix0[j].key@] == (LiveRec {
                        gen: compaction_gen,
                        pos: self.index@[j].pos as int,
                        len: ix0[j].len as int,
                        val: rm[ix0[j].key@].val,
                    }),
            decreases ix0.len() - i,
        {
            let e_gen = self.index[i].gen;
            let e_pos = self.index[i].pos;
            let e_len = self.index[i].len;
            let ghost k = ix0[i as int].key@;
            let ghost lrk = rm[k];
            proof {
                assert(ix0[i as int] == self.index@[i as int]);
                assert(rm.dom().contains(k));
                assert(entry_valid(files0, k, lrk));
                assert(lrk.gen == e_gen && lrk.pos == e_pos as int && lrk.len == e_len as int);
                lemma_find_gen_props(files0, e_gen);
            }
            let fj = find_file(&self.files, e_gen);
            let flen = self.files[fj].data.len();
            proof {
                assert(e_pos + e_len <= flen);
            }
            let ghost snap0 = snap@;
            let ghost chunk = self.files@[fj as int].data@.subrange(
                e_pos as int,
                e_pos as int + e_len as int,
            );
            push_bytes(&mut snap, &self.files[fj].data, e_pos, e_pos + e_len);
            proof {
                assert(snap@ == snap0 + chunk);
                assert(parse_rec(chunk) == Some((Rec::Put { k, v: lrk.val }, e_len as int)));
                lemma_run_append(
                    Map::empty(),
                    snap0,
                    compaction_gen,
                    0,
                    chunk,
                    Rec::Put { k, v: lrk.val },
                );
                mcur = mcur.insert(
                    k,
                    LiveRec {
                        gen: compaction_gen,
                        pos: new_pos as int,
                        len: e_len as int,
                        val: lrk.val,
                    },
                );
                assert(ix0.take(i + 1).drop_last() =~= ix0.take(i as int));
                assert(ix0.take(i + 1).last() == ix0[i as int]);
                assert forall|k2: Seq<u8>| #[trigger] mcur.dom().contains(k2) implies find_key(
                    ix0.take(i + 1),
                    k2,
                ) >= 0 by {
                    if k2 == k {
                    } else {
                        assert(find_key(ix0.take(i + 1), k2) == find_key(ix0.take(i as int), k2));
                    }
                };
            }
            let klen = self.index[i].key.len();
            let keyc = copy_range(&self.index[i].key, 0, klen);
            proof {
                assert(keyc@ =~= ix0[i as int].key@);
            }
            self.index[i] = IndexEntry { key: keyc, gen: compaction_gen, pos: new_pos, len: e_len };
            new_pos = snap.len();
            i += 1;
        }
        proof {
            assert(ix0.take(ix0.len() as int) =~= ix0);
        }
        let ghost ixkept = self.index@;
        let snap_len = snap.len();
        let snap_copy = copy_range(&snap, 0, snap_len);
        proof {
            assert(snap_copy@ =~= snap@);
        }
        let ghost eff0 = self.effects@;
        self.effects.push(Effect::Create { gen: new_gen });
        self.effects.push(Effect::Create { gen: compaction_gen });
        self.effects.push(Effect::Append { gen: compaction_gen, data: snap_copy });
        let ghost effbase = self.effects@;
        let mut di: usize = 0;
        while di < self.files.len()
            invariant
                self.files@ == files0,
                self.index@ == ixkept,
                self.current_gen == old(self).current_gen,
                0 <= di <= files0.len(),
                self.effects@.len() == effbase.len() + di,
                forall|j: int| 0 <= j < effbase.len() ==> #[trigger] self.effects@[j] == effbase[j],
                forall|j: int|
                    0 <= j < di ==> (#[trigger] self.effects@[effbase.len() + j])@
                        == EffectV::Delete(files0[j].gen),
            decreases files0.len() - di,
        {
            let dgen = self.files[di].gen;
            self.effects.push(Effect::Delete { gen: dgen });
            di += 1;
        }
        let mut newfiles: Vec<LogFile> = Vec::new();
        newfiles.push(LogFile { gen: compaction_gen, data: snap });
        newfiles.push(LogFile { gen: new_gen, data: Vec::new() });
        self.files = newfiles;
        self.current_gen = new_gen;
        self.uncompacted = 0;
        let ghost ixnew = self.index@;
        proof {
            // The rebuilt index denotes exactly the snapshot's replay.
            assert(keys_unique(ixnew)) by {
                assert(forall|j: int|
                    0 <= j < ix0.len() ==> (#[trigger] ixnew[j].key@) == ix0[j].key@);
            }
            assert forall|k2: Seq<u8>| #[trigger] mcur.dom().contains(k2) implies find_key(
                ixnew,
                k2,
            ) >= 0 by {
                lemma_find_key_same_keys(ix0, ixnew, k2);
            };
            // The new two-file directory replays to `mcur`.
            assert(self.files@.drop_last() =~= seq![self.files@[0]]);
            assert(seq![self.files@[0]].drop_last() =~= Seq::<LogFile>::empty());
            assert(replay_all(Seq::<LogFile>::empty()) == Map::<Seq<u8>, LiveRec>::empty());
            assert(replay_all(seq![self.files@[0]]) == mcur) by {
                assert(seq![self.files@[0]].last() == self.files@[0]);
                assert(self.files@[0].data@ == snap_copy@);
                assert(replay_run(Map::empty(), snap_copy@, compaction_gen, 0).0 == mcur);
            }
            assert(self.files@.last().data@.skip(0) =~= self.files@.last().data@);
            assert(parse_rec(self.files@.last().data@) is None);
            assert(replay_all(self.files@) == mcur);
            assert(ix0.take(ix0.len() as int) == ix0);
            // Same logical content as before.
            assert(live_view(mcur) =~= live_view(rm)) by {
                assert forall|k2: Seq<u8>| #[trigger] rm.dom().contains(k2) implies mcur.dom().contains(
                    k2,
                ) && mcur[k2].val == rm[k2].val by {
                    lemma_find_key(ix0, k2);
                    let j = find_key(ix0, k2);
                    assert(j >= 0);
                    assert(ix0[j].key@ == k2);
                    assert(mcur.dom().contains(ix0[j].key@));
                };
                assert forall|k2: Seq<u8>| #[trigger] mcur.dom().contains(k2) implies rm.dom().contains(
                    k2,
                ) by {
                    assert(find_key(ix0, k2) >= 0);
                    lemma_find_key(ix0, k2);
                    let j = find_key(ix0, k2);
                    assert(ix0[j].key@ == k2);
                };
            }
            // The disk now holds exactly the live bytes.
            lemma_ix_len_sum_same(ix0, ixnew);
            assert(disk_size(self.files@) == snap_copy@.len() + 0) by {
                assert(disk_size(Seq::<LogFile>::empty()) == 0);
                assert(disk_size(seq![self.files@[0]]) == snap_copy@.len());
            }
            // The journal grew by exactly the compaction effects.
            let evs = compaction_evs(files0, (new_gen - 2) as u64, self.files@);
            assert(evs.len() == 3 + files0.len());
            assert(effects_view(self.effects@) =~= effects_view(eff0) + evs) by {
                let rhs = effects_view(eff0) + evs;
                assert(effbase.len() == eff0.len() + 3);
                assert(self.effects@.len() == eff0.len() + 3 + files0.len());
                assert forall|x: int| 0 <= x < self.effects@.len() implies effects_view(
                    self.effects@,
                )[x] == rhs[x] by {
                    assert(effects_view(self.effects@)[x] == self.effects@[x]@);
                    if x < eff0.len() {
                        assert(self.effects@[x] == effbase[x]);
                        assert(effbase[x] == eff0[x]);
                    } else if x < eff0.len() + 3 {
                        assert(self.effects@[x] == effbase[x]);
                        if x == eff0.len() {
                            assert(effbase[x]@ == EffectV::Create(new_gen));
                        } else if x == eff0.len() + 1 {
                            assert(effbase[x]@ == EffectV::Create(compaction_gen));
                        } else {
                            assert(effbase[x]@ == EffectV::Append(compaction_gen, snap_copy@));
                        }
                    } else {
                        let j = x - effbase.len();
                        assert(self.effects@[effbase.len() + j]@ == EffectV::Delete(
                            files0[j].gen,
                        ));
                        assert(rhs[x] == evs[x - eff0.len()]);
                        assert(evs[3 + j] == EffectV::Delete(files0[j].gen));
                    }
                };
            }
        }
    }
}

/// Replay one generation file into the index, as `open` does for each file
/// found on disk.  Returns the dead bytes this file contributes: bytes of
/// superseded `Put` records and of `Rm` records and their victims.
fn load(
    gen: u64,
    data: &Vec<u8>,
    index: &mut Vec<IndexEntry>,
    Ghost(m): Ghost<Map<Seq<u8>, LiveRec>>,
) -> (r: u64)
    requires
        keys_unique(old(index)@),
        index_matches(old(index)@, m),
    ensures
        keys_unique(final(index)@),
        index_matches(final(index)@, replay_run(m, data@, gen, 0).0),
{
    let mut pos: usize = 0;
    let mut unc: u64 = 0;
    let ghost mut mcur = m;
    loop
        invariant
            0 <= pos <= data.len(),
            keys_unique(index@),
            index_matches(index@, mcur),
            replay_run(m, data@, gen, 0).0 == replay_run(mcur, data@, gen, pos as int).0,
        ensures
            keys_unique(index@),
            index_matches(index@, replay_run(m, data@, gen, 0).0),
        decreases data@.len() - pos,
    {
        let parsed = parse_record(data, pos);
        match parsed {
            None => {
                proof {
                    assert(replay_run(mcur, data@, gen, pos as int).0 == mcur);
                }
                break ;
            },
            Some((op, consumed)) => {
                let new_pos = pos + consumed;
                let ghost stepped = apply_rec(mcur, op@, gen, pos as int, consumed as int);
                proof {
                    lemma_parse_bounds(data@.skip(pos as int));
                    assert(replay_run(mcur, data@, gen, pos as int).0 == replay_run(
                        stepped,
                        data@,
                        gen,
                        new_pos as int,
                    ).0);
                }
                match op {
                    Operation::Put { k, v } => {
                        let old_len = index_put(
                            index,
                            k,
                            gen,
                            pos,
                            consumed,
                            Ghost(mcur),
                            Ghost(
                                LiveRec {
                                    gen,
                                    pos: pos as int,
                                    len: consumed as int,
                                    val: v@,
                                },
                            ),
                        );
                        match old_len {
                            Some(l) => {
                                unc = match unc.checked_add(l as u64) {
                                    Some(x) => x,
                                    None => u64::MAX,
                                };
                            },
                            None => {},
                        }
                    },
                    Operation::Rm { k } => {
                        let old_len = index_remove(index, &k, Ghost(mcur));
                        match old_len {
                            Some(l) => {
                                unc = match unc.checked_add(l as u64) {
                                    Some(x) => x,
                                    None => u64::MAX,
                                };
                            },
                            None => {},
                        }
                        unc = match unc.checked_add(consumed as u64) {
                            Some(x) => x,
                            None => u64::MAX,
                        };
                    },
                }
                proof {
                    mcur = stepped;
                }
                pos = new_pos;
            },
        }
    }
    unc
}

/// Position of the file with generation `gen` in an ascending file list.
fn find_file(files: &Vec<LogFile>, gen: u64) -> (r: usize)
    requires
        gens_ascending(files@),
        find_gen(files@, gen) >= 0,
    ensures
        r < files@.len(),
        files@[r as int].gen == gen,
        r as int == find_gen(files@, gen),
{
    proof {
        lemma_find_gen_props(files@, gen);
    }
    let ghost fg = find_gen(files@, gen);
    let mut j: usize = 0;
    while j < files.len()
        invariant
            0 <= j <= files@.len(),
            forall|x: int| 0 <= x < j ==> (#[trigger] files@[x].gen) != gen,
            gens_ascending(files@),
            fg == find_gen(files@, gen),
            0 <= fg < files@.len(),
            files@[fg].gen == gen,
        decreases files@.len() - j,
    {
        if files[j].gen == gen {
            proof {
                if j as int != fg {
                    assert(files@[j as int].gen == files@[fg].gen);
                    assert(false);
                }
            }
            return j;
        }
        j += 1;
    }
    proof {
        assert(false);
    }
    0
}

/// Relies on `String::from_utf8`: it succeeds exactly on the valid UTF-8
/// byte sequences and returns the string whose UTF-8 encoding is the given
/// bytes.
#[verifier::external_body]
fn string_from_utf8(v: Vec<u8>) -> (r: Option<String>)
    ensures
        match r {
            Some(s) => encode_utf8(s@) == v@,
            None => !valid_utf8(v@),
        },
{
    String::from_utf8(v).ok()
}


/// Round trip: `set(k, v)` makes the view map `k`'s bytes to `v`'s bytes,
/// and `get(k)`'s contract then forces it to return `v`.
pub proof fn lemma_round_trip(m: Map<Seq<u8>, Seq<u8>>, k: Seq<u8>, v: Seq<u8>)
    ensures
        m.insert(k, v).dom().contains(k),
        m.insert(k, v)[k] == v,
{
}

/// Overwrite: after two `set`s to the same key, `get` sees the second
/// value.
pub proof fn lemma_overwrite(m: Map<Seq<u8>, Seq<u8>>, k: Seq<u8>, v1: Seq<u8>, v2: Seq<u8>)
    ensures
        m.insert(k, v1).insert(k, v2)[k] == v2,
{
}

/// Removal: after `set(k, v); remove(k)`, `get(k)` sees nothing.
pub proof fn lemma_removal(m: Map<Seq<u8>, Seq<u8>>, k: Seq<u8>, v: Seq<u8>)
    ensures
        !m.insert(k, v).remove(k).dom().contains(k),
{
}

/// Persistence and idempotent replay: a store's view equals the replay of
/// its files, and re-opening those files (which only adds a fresh empty
/// generation) replays to the same view.  Opening twice in a row therefore
/// changes nothing observable.
pub proof fn lemma_reopen_preserves_view(s: KvStore, f: LogFile)
    requires
        s.wf(),
        f.data@.len() == 0,
    ensures
        live_view(replay_all(s.logs().push(f))) == s@,
{
    lemma_replay_push_empty(s.logs(), f);
}

} // verus!
