//! Replay semantics of the generation logs.
//!
//! A directory of generation files is modelled as a sequence of [`LogFile`]
//! images ordered by generation number.  [`replay_all`] folds the files in
//! that order, decoding each file's records left to right and applying them
//! last-writer-wins; it stops at the first byte of a file where no complete
//! well-formed record starts, which is how a torn final record from a crash
//! is tolerated.  The resulting map from key to [`LiveRec`] is the logical
//! content of the store, and the engine's in-memory index is proved equal to
//! it at all times.

use vstd::prelude::*;

verus! {

use crate::codec::{parse_rec, Rec, lemma_parse_congruent, lemma_parse_bounds};

/// The in-memory image of one generation's log file.
#[derive(Clone)]
pub struct LogFile {
    pub gen: u64,
    pub data: Vec<u8>,
}

/// Where the most recent `Put` record for a key lives, and the value it
/// carries: generation, byte offset, byte length, value bytes.
pub struct LiveRec {
    pub gen: u64,
    pub pos: int,
    pub len: int,
    pub val: Seq<u8>,
}

/// The effect of one decoded record on the live map.
pub open spec fn apply_rec(
    m: Map<Seq<u8>, LiveRec>,
    r: Rec,
    gen: u64,
    pos: int,
    len: int,
) -> Map<Seq<u8>, LiveRec> {
    match r {
        Rec::Put { k, v } => m.insert(k, LiveRec { gen, pos, len, val: v }),
        Rec::Rm { k } => m.remove(k),
    }
}

/// Replay the records of `data` from offset `off` onward into `m`.
/// Returns the resulting live map and the offset just after the last
/// decoded record.
pub open spec fn replay_run(
    m: Map<Seq<u8>, LiveRec>,
    data: Seq<u8>,
    gen: u64,
    off: int,
) -> (Map<Seq<u8>, LiveRec>, int)
    decreases data.len() - off,
{
    if 0 <= off <= data.len() {
        match parse_rec(data.skip(off)) {
            Some(pr) => {
                if 1 <= pr.1 <= data.len() - off {
                    replay_run(apply_rec(m, pr.0, gen, off, pr.1), data, gen, off + pr.1)
                } else {
                    (m, off)
                }
            },
            None => (m, off),
        }
    } else {
        (m, off)
    }
}

/// The live map of a whole directory: fold the files in order.
pub open spec fn replay_all(files: Seq<LogFile>) -> Map<Seq<u8>, LiveRec>
    decreases files.len(),
{
    if files.len() == 0 {
        Map::empty()
    } else {
        replay_run(replay_all(files.drop_last()), files.last().data@, files.last().gen, 0).0
    }
}

/// The key-to-value mapping the live map denotes.
pub open spec fn live_view(m: Map<Seq<u8>, LiveRec>) -> Map<Seq<u8>, Seq<u8>> {
    Map::new(|k: Seq<u8>| m.dom().contains(k), |k: Seq<u8>| m[k].val)
}

/// Generation numbers strictly increase along the file sequence.
pub open spec fn gens_ascending(files: Seq<LogFile>) -> bool {
    forall|i: int, j: int| 0 <= i < j < files.len() ==> files[i].gen < files[j].gen
}

/// Index of the file with generation `g` (searching from the most recent),
/// or `-1` when there is none.
pub open spec fn find_gen(files: Seq<LogFile>, g: u64) -> int
    decreases files.len(),
{
    if files.len() == 0 {
        -1
    } else if files.last().gen == g {
        files.len() - 1
    } else {
        find_gen(files.drop_last(), g)
    }
}

/// A live record actually sits where it claims to: its generation exists,
/// the byte range is inside that file, and those bytes decode to exactly a
/// `Put` of this key and value.
pub open spec fn entry_valid(files: Seq<LogFile>, k: Seq<u8>, l: LiveRec) -> bool {
    let i = find_gen(files, l.gen);
    &&& 0 <= i < files.len()
    &&& files[i].gen == l.gen
    &&& 0 <= l.pos
    &&& 21 <= l.len
    &&& l.pos + l.len <= files[i].data@.len()
    &&& parse_rec(files[i].data@.subrange(l.pos, l.pos + l.len)) == Some(
        (Rec::Put { k, v: l.val }, l.len),
    )
}

/// Every entry of `m` is valid with respect to `files`.
pub open spec fn map_valid(files: Seq<LogFile>, m: Map<Seq<u8>, LiveRec>) -> bool {
    forall|k: Seq<u8>| m.dom().contains(k) ==> entry_valid(files, k, #[trigger] m[k])
}

/// Appending one well-formed record to a fully decoded log extends the
/// decoding by exactly that record.
pub proof fn lemma_run_append(
    m: Map<Seq<u8>, LiveRec>,
    data: Seq<u8>,
    gen: u64,
    off: int,
    e: Seq<u8>,
    r: Rec,
)
    requires
        0 <= off <= data.len(),
        replay_run(m, data, gen, off).1 == data.len(),
        parse_rec(e) == Some((r, e.len() as int)),
    ensures
        replay_run(m, data + e, gen, off).0 == apply_rec(
            replay_run(m, data, gen, off).0,
            r,
            gen,
            data.len() as int,
            e.len() as int,
        ),
        replay_run(m, data + e, gen, off).1 == data.len() + e.len(),
    decreases data.len() - off,
{
    lemma_parse_bounds(e);
    let s = data.skip(off);
    let s2 = (data + e).skip(off);
    assert(s2 =~= s + e);
    match parse_rec(s) {
        Some(pr) => {
            lemma_parse_bounds(s);
            if 1 <= pr.1 <= data.len() - off {
                assert(forall|i: int| 0 <= i < s.len() ==> s2[i] == s[i]);
                lemma_parse_congruent(s, s2);
                lemma_run_append(apply_rec(m, pr.0, gen, off, pr.1), data, gen, off + pr.1, e, r);
            } else {
                assert(false);
            }
        },
        None => {
            assert(replay_run(m, data, gen, off) == (m, off));
            assert(off == data.len());
            assert(s2 =~= e);
            let m2 = apply_rec(m, r, gen, off, e.len() as int);
            assert((data + e).skip(off + e.len()) =~= Seq::<u8>::empty());
            assert(parse_rec(Seq::<u8>::empty()) is None);
            assert(replay_run(m2, data + e, gen, off + e.len()) == (
                m2,
                off + e.len(),
            ));
        },
    }
}

/// Entries stay valid when a file with a fresh, higher generation number is
/// added at the end.
proof fn lemma_entry_valid_push(files: Seq<LogFile>, f: LogFile, k: Seq<u8>, l: LiveRec)
    requires
        entry_valid(files, k, l),
        forall|i: int| 0 <= i < files.len() ==> (#[trigger] files[i].gen) < f.gen,
    ensures
        entry_valid(files.push(f), k, l),
{
    assert(files.push(f).drop_last() =~= files);
    let i = find_gen(files, l.gen);
    assert(files[i].gen == l.gen);
    assert(f.gen != l.gen);
    assert(find_gen(files.push(f), l.gen) == i);
    assert(files.push(f)[i] == files[i]);
}

/// Replaying a file whose generation resolves to itself keeps every entry
/// valid.
proof fn lemma_run_valid(files: Seq<LogFile>, fi: int, m: Map<Seq<u8>, LiveRec>, off: int)
    requires
        0 <= fi < files.len(),
        find_gen(files, files[fi].gen) == fi,
        0 <= off <= files[fi].data@.len(),
        map_valid(files, m),
    ensures
        map_valid(files, replay_run(m, files[fi].data@, files[fi].gen, off).0),
    decreases files[fi].data@.len() - off,
{
    let data = files[fi].data@;
    let gen = files[fi].gen;
    match parse_rec(data.skip(off)) {
        Some(pr) => {
            if 1 <= pr.1 <= data.len() - off {
                let m2 = apply_rec(m, pr.0, gen, off, pr.1);
                lemma_parse_bounds(data.skip(off));
                let chunk = data.subrange(off, off + pr.1);
                assert(forall|i: int| 0 <= i < pr.1 ==> chunk[i] == data.skip(off)[i]);
                lemma_parse_congruent(data.skip(off), chunk);
                match pr.0 {
                    Rec::Put { k, v } => {
                        assert(entry_valid(
                            files,
                            k,
                            LiveRec { gen, pos: off, len: pr.1, val: v },
                        ));
                        assert(map_valid(files, m2));
                    },
                    Rec::Rm { k } => {
                        assert(map_valid(files, m2));
                    },
                }
                lemma_run_valid(files, fi, m2, off + pr.1);
            }
        },
        None => {},
    }
}

/// Every entry of the replayed live map is valid: it points at a range of a
/// live generation file that decodes to its `Put` record.
pub proof fn lemma_replay_all_valid(files: Seq<LogFile>)
    requires
        gens_ascending(files),
    ensures
        map_valid(files, replay_all(files)),
    decreases files.len(),
{
    if files.len() > 0 {
        let butlast = files.drop_last();
        lemma_replay_all_valid(butlast);
        let prev = replay_all(butlast);
        assert(butlast.push(files.last()) =~= files);
        assert forall|k: Seq<u8>| prev.dom().contains(k) implies entry_valid(
            files,
            k,
            #[trigger] prev[k],
        ) by {
            lemma_entry_valid_push(butlast, files.last(), k, prev[k]);
            assert(butlast.push(files.last()) == files);
        };
        assert(find_gen(files, files[files.len() - 1].gen) == files.len() - 1);
        lemma_run_valid(files, files.len() - 1, prev, 0);
    }
}

/// Appending one well-formed record to the last file applies exactly that
/// record to the whole directory's live map, and the last file stays fully
/// decodable.
pub proof fn lemma_replay_all_extend(
    files: Seq<LogFile>,
    files2: Seq<LogFile>,
    e: Seq<u8>,
    r: Rec,
)
    requires
        files.len() >= 1,
        files2.len() == files.len(),
        forall|i: int| 0 <= i < files.len() - 1 ==> files2[i] == files[i],
        files2.last().gen == files.last().gen,
        files2.last().data@ == files.last().data@ + e,
        replay_run(
            replay_all(files.drop_last()),
            files.last().data@,
            files.last().gen,
            0,
        ).1 == files.last().data@.len(),
        parse_rec(e) == Some((r, e.len() as int)),
    ensures
        replay_all(files2) == apply_rec(
            replay_all(files),
            r,
            files.last().gen,
            files.last().data@.len() as int,
            e.len() as int,
        ),
        replay_run(
            replay_all(files2.drop_last()),
            files2.last().data@,
            files2.last().gen,
            0,
        ).1 == files2.last().data@.len(),
{
    assert(files2.drop_last() =~= files.drop_last());
    let prev = replay_all(files.drop_last());
    lemma_run_append(prev, files.last().data@, files.last().gen, 0, e, r);
}


/// What `find_gen` returns when nonnegative: a real position holding `g`.
pub proof fn lemma_find_gen_props(files: Seq<LogFile>, g: u64)
    ensures
        find_gen(files, g) >= 0 ==> 0 <= find_gen(files, g) < files.len() && files[find_gen(
            files,
            g,
        )].gen == g,
        find_gen(files, g) == -1 ==> forall|j: int|
            0 <= j < files.len() ==> (#[trigger] files[j].gen) != g,
        find_gen(files, g) >= 0 || find_gen(files, g) == -1,
    decreases files.len(),
{
    if files.len() > 0 && files.last().gen != g {
        lemma_find_gen_props(files.drop_last(), g);
        assert(forall|j: int| 0 <= j < files.len() - 1 ==> files.drop_last()[j] == files[j]);
    }
}

/// Adding an empty file does not change the live map.
pub proof fn lemma_replay_push_empty(files: Seq<LogFile>, f: LogFile)
    requires
        f.data@.len() == 0,
    ensures
        replay_all(files.push(f)) == replay_all(files),
{
    assert(files.push(f).drop_last() =~= files);
    assert(f.data@.skip(0) =~= f.data@);
    assert(parse_rec(f.data@) is None);
}

/// Total number of bytes the generation files occupy.
pub open spec fn disk_size(files: Seq<LogFile>) -> nat
    decreases files.len(),
{
    if files.len() == 0 {
        0
    } else {
        disk_size(files.drop_last()) + files.last().data@.len()
    }
}

} // verus!
