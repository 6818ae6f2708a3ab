//! The manifest: the list of the table files that are live.
//!
//! A compaction writes its new tables before it removes the tables that it
//! merged, and a flush writes its table before it empties the log. A
//! process that dies in between leaves files behind that are not part of
//! the tree. The manifest names the files that are: it is written, in one
//! step, after the new tables and before anything is removed. A directory
//! is opened over the files that its manifest names, and the others are
//! left aside.
//!
//! The bytes of a manifest are the names in their frames: for each name a
//! length (`u32`, little-endian) and its UTF-8 bytes.

use vstd::prelude::*;
use vstd::slice::{slice_subrange, slice_to_vec};
use vstd::string::StringSliceAdditionalSpecFns;
use vstd::utf8::{
    decode_utf8, encode_utf8, encode_utf8_decode_utf8, encode_utf8_valid_utf8, valid_utf8,
};
use crate::engine::codec::{
    fits, frames, lemma_frames_round_trip, next_frame, put_frame, split_frames, string_from_utf8,
};
use crate::engine::codec::{dec_log, enc_run};
use crate::engine::level::all_tables;
use crate::engine::lsm::{
    files_overlap, files_readable, given_log, numbers_exhausted, numbers_repeat, LSMConfig,
    LSMTree,
};
use crate::engine::sstable::TableModel;
use crate::text::texts;
use crate::types::{DbError, DbResult};

verus! {

/// The UTF-8 bytes of each name.
pub open spec fn name_payloads(names: Seq<Seq<char>>) -> Seq<Seq<u8>> {
    Seq::new(names.len(), |i: int| encode_utf8(names[i]))
}

/// Every name can be written: its bytes fit one frame.
pub open spec fn all_fit(names: Seq<Seq<char>>) -> bool {
    forall|i: int| 0 <= i < names.len() ==> fits(#[trigger] names[i])
}

/// The bytes of a manifest: each name in its frame, in order.
pub open spec fn enc_names(names: Seq<Seq<char>>) -> Seq<u8> {
    frames(name_payloads(names))
}

/// The names that the bytes of a manifest spell. Every byte must belong to
/// a complete frame and every frame must hold UTF-8.
pub open spec fn dec_names(b: Seq<u8>) -> Option<Seq<Seq<char>>> {
    let split = split_frames(b, 0);
    if split.1 == b.len() && forall|i: int|
        0 <= i < split.0.len() ==> valid_utf8(#[trigger] split.0[i]) {
        Some(Seq::new(split.0.len(), |i: int| decode_utf8(split.0[i])))
    } else {
        None
    }
}

/// Names that were written are read back as they were.
pub proof fn lemma_names_round_trip(names: Seq<Seq<char>>)
    requires
        all_fit(names),
    ensures
        dec_names(enc_names(names)) == Some(names),
{
    let ps = name_payloads(names);
    lemma_frames_round_trip(ps);
    assert forall|i: int| 0 <= i < ps.len() implies valid_utf8(#[trigger] ps[i]) && decode_utf8(
        ps[i],
    ) == names[i] by {
        encode_utf8_valid_utf8(names[i]);
        encode_utf8_decode_utf8(names[i]);
    }
    assert(dec_names(enc_names(names)).unwrap() =~= names);
}

/// The bytes of the manifest that lists `names`; `None` where a name is
/// too long for a frame.
pub fn encode_manifest(names: &Vec<String>) -> (r: Option<Vec<u8>>)
    ensures
        match r {
            Some(bytes) => all_fit(texts(names@)) && bytes@ == enc_names(texts(names@)),
            None => !all_fit(texts(names@)),
        },
{
    let mut out: Vec<u8> = Vec::new();
    let ghost ps = name_payloads(texts(names@));
    let mut i: usize = 0;
    while i < names.len()
        invariant
            i <= names@.len(),
            ps == name_payloads(texts(names@)),
            out@ == frames(ps.take(i as int)),
            forall|j: int| 0 <= j < i ==> fits(#[trigger] texts(names@)[j]),
        decreases names.len() - i,
    {
        let bytes = names[i].as_str().as_bytes();
        if bytes.len() > 0xffff_ffff {
            proof {
                assert(!fits(texts(names@)[i as int]));
            }
            return None;
        }
        put_frame(&mut out, bytes);
        proof {
            assert(ps.take(i + 1).drop_last() =~= ps.take(i as int));
            assert(ps.take(i + 1).last() == encode_utf8(texts(names@)[i as int]));
        }
        i += 1;
    }
    proof {
        assert(ps.take(i as int) =~= ps);
    }
    Some(out)
}

/// The names that the bytes of a manifest spell; `None` where they spell none.
pub fn decode_manifest(bytes: &[u8]) -> (r: Option<Vec<String>>)
    ensures
        match r {
            Some(names) => dec_names(bytes@) == Some(texts(names@)),
            None => dec_names(bytes@) is None,
        },
{
    let mut names: Vec<String> = Vec::new();
    let mut at: usize = 0;
    let ghost all = split_frames(bytes@, 0).0;
    let ghost done: int = 0;
    loop
        invariant
            at <= bytes@.len(),
            all == split_frames(bytes@, 0).0,
            split_frames(bytes@, 0).1 == split_frames(bytes@, at as int).1,
            0 <= done <= all.len(),
            all =~= all.take(done) + split_frames(bytes@, at as int).0,
            names@.len() == done,
            forall|i: int|
                0 <= i < done ==> valid_utf8(#[trigger] all[i]) && names@[i]@ == decode_utf8(all[i]),
        ensures
            done == all.len(),
            at == split_frames(bytes@, 0).1,
            at <= bytes@.len(),
            names@.len() == done,
            forall|i: int|
                0 <= i < done ==> valid_utf8(#[trigger] all[i]) && names@[i]@ == decode_utf8(all[i]),
        decreases bytes@.len() - at,
    {
        match next_frame(bytes, at) {
            None => {
                break;
            },
            Some((start, end)) => {
                let payload = slice_to_vec(slice_subrange(bytes, start, end));
                proof {
                    let rest = split_frames(bytes@, end as int).0;
                    assert(split_frames(bytes@, at as int).0 =~= seq![payload@] + rest);
                    assert(all[done] == payload@);
                    assert(all.take(done + 1) =~= all.take(done).push(payload@));
                }
                match string_from_utf8(payload) {
                    Some(name) => {
                        names.push(name);
                    },
                    None => {
                        return None;
                    },
                }
                at = end;
                proof {
                    done = done + 1;
                }
            },
        }
    }
    if at != bytes.len() {
        return None;
    }
    proof {
        assert(dec_names(bytes@).unwrap() =~= texts(names@));
    }
    Some(names)
}

/// The place of the first file that carries the name, from `from` on; the
/// number of files where none does.
pub open spec fn place_of(files: Seq<(String, Vec<u8>)>, name: Seq<char>, from: int) -> int
    decreases files.len() - from,
{
    if from < 0 || from >= files.len() {
        files.len() as int
    } else if files[from].0@ == name {
        from
    } else {
        place_of(files, name, from + 1)
    }
}

/// Every name is the name of a file.
pub open spec fn all_present(files: Seq<(String, Vec<u8>)>, names: Seq<Seq<char>>) -> bool {
    forall|i: int| 0 <= i < names.len() ==> place_of(files, #[trigger] names[i], 0) < files.len()
}

/// `picked` are the files that the names list: for each name, in the
/// order of the names, the file that carries it.
pub open spec fn picks(
    files: Seq<(String, Vec<u8>)>,
    names: Seq<Seq<char>>,
    picked: Seq<(String, Vec<u8>)>,
) -> bool {
    &&& picked.len() == names.len()
    &&& forall|i: int|
        0 <= i < names.len() ==> {
            let p = place_of(files, #[trigger] names[i], 0);
            0 <= p < files.len() && picked[i].0@ == names[i] && picked[i].1@ == files[p].1@
        }
}

/// The place of the first file that carries the name.
pub fn find_file(files: &Vec<(String, Vec<u8>)>, name: &str) -> (r: Option<usize>)
    ensures
        match r {
            Some(p) => p == place_of(files@, name@, 0) && p < files@.len(),
            None => place_of(files@, name@, 0) >= files@.len(),
        },
{
    let mut i: usize = 0;
    while i < files.len()
        invariant
            i <= files@.len(),
            place_of(files@, name@, 0) == place_of(files@, name@, i as int),
        decreases files.len() - i,
    {
        if crate::keys::compare_keys(files[i].0.as_str(), name) == crate::keys::KeyOrder::Equal {
            return Some(i);
        }
        i += 1;
    }
    None
}

/// The files that the names list, in the order of the names; `None` where
/// a name is the name of no file.
pub fn select_files(files: &Vec<(String, Vec<u8>)>, names: &Vec<String>) -> (r: Option<
    Vec<(String, Vec<u8>)>,
>)
    ensures
        match r {
            Some(picked) => picks(files@, texts(names@), picked@),
            None => !all_present(files@, texts(names@)),
        },
{
    let mut picked: Vec<(String, Vec<u8>)> = Vec::new();
    let mut i: usize = 0;
    while i < names.len()
        invariant
            i <= names@.len(),
            picked@.len() == i,
            forall|j: int|
                0 <= j < i ==> {
                    let p = place_of(files@, #[trigger] texts(names@)[j], 0);
                    0 <= p < files@.len() && picked@[j].0@ == texts(names@)[j] && picked@[j].1@
                        == files@[p].1@
                },
        decreases names.len() - i,
    {
        match find_file(files, names[i].as_str()) {
            None => {
                proof {
                    assert(place_of(files@, texts(names@)[i as int], 0) >= files@.len());
                }
                return None;
            },
            Some(p) => {
                let bytes = slice_to_vec(files[p].1.as_slice());
                picked.push((names[i].clone(), bytes));
            },
        }
        i += 1;
    }
    Some(picked)
}

/// The names of the table files of the levels, level 0 first.
pub open spec fn table_names(levels: Seq<Seq<TableModel>>) -> Seq<Seq<char>> {
    Seq::new(all_tables(levels).len(), |i: int| all_tables(levels)[i].file_path)
}

/// The bytes of the manifest that a tree is opened with; none where the
/// directory holds no manifest.
pub open spec fn given_manifest(manifest: Option<&[u8]>) -> Option<Seq<u8>> {
    match manifest {
        Some(b) => Some(b@),
        None => None,
    }
}

/// `live` are the files that a tree is opened over: all files where there
/// is no manifest, and the files that the manifest lists where there is one.
pub open spec fn chosen(
    files: Seq<(String, Vec<u8>)>,
    manifest: Option<Seq<u8>>,
    live: Seq<(String, Vec<u8>)>,
) -> bool {
    match manifest {
        None => live == files,
        Some(b) => match dec_names(b) {
            Some(names) => picks(files, names, live),
            None => false,
        },
    }
}

/// No tree can be opened over these files and this log: a table file
/// holds no table, two tables of a level below level 0 overlap, two tables
/// of level 0 carry one number, no number is left, or the log cannot be read.
pub open spec fn unfit(config: &LSMConfig, live: Seq<(String, Vec<u8>)>, log: Seq<u8>) -> bool {
    !files_readable(live) || files_overlap(live) || numbers_repeat(live) || numbers_exhausted(live)
        || (config.enable_wal && dec_log(log) is None)
}

impl LSMTree {
    /// The bytes of the tree's manifest: the names of its table files,
    /// level 0 first. `None` where a name is too long for a frame.
    pub fn manifest(&self) -> (r: Option<Vec<u8>>)
        requires
            self.wf(),
        ensures
            match r {
                Some(bytes) => all_fit(table_names(self.levels())) && bytes@ == enc_names(
                    table_names(self.levels()),
                ),
                None => !all_fit(table_names(self.levels())),
            },
    {
        let names = self.level_manager().file_names();
        proof {
            assert(texts(names@) =~= table_names(self.levels()));
        }
        encode_manifest(&names)
    }

    /// Opens a tree over a data directory that may hold files which a
    /// crash has left behind. Where the directory has a manifest, the tree
    /// is opened over the files that the manifest lists, and the other
    /// files are left aside; a manifest that cannot be read, or that
    /// lists a file which is not there, is corrupt. Where it has none,
    /// the tree is opened over all files. A configuration whose levels
    /// would not grow, with a multiplier below 2, is refused.
    pub fn open(
        config: LSMConfig,
        files: &Vec<(String, Vec<u8>)>,
        manifest: Option<&[u8]>,
        wal_bytes: Option<Vec<u8>>,
    ) -> (r: DbResult<Self>)
        ensures
            match r {
                Ok(t) => exists|live: Seq<(String, Vec<u8>)>|
                    {
                        &&& #[trigger] chosen(files@, given_manifest(manifest), live)
                        &&& config.level_size_multiplier >= 2
                        &&& t.wf()
                        &&& t.in_order()
                        &&& Self::opened(&t, &config, live, given_log(wal_bytes))
                        &&& !unfit(&config, live, given_log(wal_bytes))
                    },
                Err(DbError::Corrupt(_)) => match manifest {
                    None => unfit(&config, files@, given_log(wal_bytes)),
                    Some(b) => match dec_names(b@) {
                        None => true,
                        Some(names) => !all_present(files@, names) || exists|
                            live: Seq<(String, Vec<u8>)>,
                        |
                            #[trigger] picks(files@, names, live) && unfit(
                                &config,
                                live,
                                given_log(wal_bytes),
                            ),
                    },
                },
                Err(DbError::InvalidArgument(_)) => config.level_size_multiplier < 2,
                Err(_) => false,
            },
    {
        match manifest {
            None => {
                let r = Self::with_config(config, files, wal_bytes);
                proof {
                    if r is Ok {
                        assert(chosen(files@, given_manifest(manifest), files@));
                    }
                }
                r
            },
            Some(bytes) => {
                let names = match decode_manifest(bytes) {
                    Some(names) => names,
                    None => {
                        return Err(DbError::Corrupt("the manifest cannot be read".to_string()));
                    },
                };
                let live = match select_files(files, &names) {
                    Some(live) => live,
                    None => {
                        return Err(
                            DbError::Corrupt("the manifest lists a file that is missing".to_string()),
                        );
                    },
                };
                let r = Self::with_config(config, &live, wal_bytes);
                proof {
                    if r is Ok {
                        assert(chosen(files@, given_manifest(manifest), live@));
                    } else {
                        assert(picks(files@, texts(names@), live@));
                    }
                }
                r
            },
        }
    }

    /// The files that a manifest of the tree picks from a directory which
    /// holds the tree's table files, and others besides, are exactly the
    /// directory of the tree.
    pub proof fn lemma_manifest_picks_directory(
        &self,
        files: Seq<(String, Vec<u8>)>,
        live: Seq<(String, Vec<u8>)>,
    )
        requires
            forall|i: int|
                #![trigger table_names(self.levels())[i]]
                0 <= i < table_names(self.levels()).len() ==> {
                    let p = place_of(files, table_names(self.levels())[i], 0);
                    0 <= p < files.len() && files[p].1@ == enc_run(
                        all_tables(self.levels())[i].records,
                    )
                },
            picks(files, table_names(self.levels()), live),
        ensures
            Self::is_directory_of(self, live),
    {
        assert forall|i: int| 0 <= i < live.len() implies (#[trigger] live[i]).0@ == all_tables(
            self.levels(),
        )[i].file_path && live[i].1@ == enc_run(all_tables(self.levels())[i].records) by {
            let name = table_names(self.levels())[i];
            assert(0 <= place_of(files, name, 0) < files.len());
        }
    }
}

} // verus!
