//! The episode store of one tracked directory and its state transitions.

use vstd::prelude::*;
use crate::codec::{
    decode_record, decoded, encode_record, is_prefix, pairs_view, record_bytes, RecordContents,
};
use crate::media::{filter_videos, is_video_chars};
use crate::order::{
    lemma_name_lt_irreflexive, lemma_name_lt_total, lemma_name_lt_transitive, name_less, name_lt,
};

verus! {

/// One episode as the contracts see it: its name and whether it was watched.
pub type EpisodeModel = (Seq<char>, bool);

/// A series as the contracts see it.
pub ghost struct SeriesModel {
    pub dir: Seq<char>,
    pub episodes: Seq<EpisodeModel>,
}

/// The names of `eps` are strictly ascending; in particular they are unique.
pub open spec fn sorted_strict(eps: Seq<EpisodeModel>) -> bool {
    forall|i: int, j: int| 0 <= i < j < eps.len() ==> name_lt(#[trigger] eps[i].0, #[trigger] eps[j].0)
}

/// Some episode of `eps` is called `name`.
pub open spec fn has_name(eps: Seq<EpisodeModel>, name: Seq<char>) -> bool {
    exists|i: int| 0 <= i < eps.len() && #[trigger] eps[i].0 == name
}

/// Position `i` holds the first unwatched episode of `eps`.
pub open spec fn is_first_unwatched(eps: Seq<EpisodeModel>, i: int) -> bool {
    &&& 0 <= i < eps.len()
    &&& !eps[i].1
    &&& forall|j: int| 0 <= j < i ==> #[trigger] eps[j].1
}

/// Every episode of `eps` has been watched (true of an empty list).
pub open spec fn all_watched(eps: Seq<EpisodeModel>) -> bool {
    forall|i: int| 0 <= i < eps.len() ==> #[trigger] eps[i].1
}

/// `eps` with the episode at position `i` marked watched.
pub open spec fn marked(eps: Seq<EpisodeModel>, i: int) -> Seq<EpisodeModel> {
    eps.update(i, (eps[i].0, true))
}

/// `eps` with its first `n` episodes marked watched.
pub open spec fn marked_through(eps: Seq<EpisodeModel>, n: int) -> Seq<EpisodeModel> {
    Seq::new(eps.len(), |i: int| if i < n { (eps[i].0, true) } else { eps[i] })
}

/// The position of the episode called `name`, if there is one.
pub open spec fn index_of(eps: Seq<EpisodeModel>, name: Seq<char>) -> Option<int> {
    if has_name(eps, name) {
        Some(choose|i: int| 0 <= i < eps.len() && #[trigger] eps[i].0 == name)
    } else {
        None
    }
}

proof fn lemma_index_of(eps: Seq<EpisodeModel>, name: Seq<char>, i: int)
    requires
        sorted_strict(eps),
        0 <= i < eps.len(),
        eps[i].0 == name,
    ensures
        index_of(eps, name) == Some(i),
{
    let j = index_of(eps, name)->Some_0;
    if j != i {
        lemma_name_lt_irreflexive(name);
    }
}

/// `new` is `old` after merging in the candidate names `cands`.
pub open spec fn reconciled(
    old: Seq<EpisodeModel>,
    cands: Seq<Seq<char>>,
    new: Seq<EpisodeModel>,
) -> bool {
    &&& sorted_strict(new)
    &&& forall|n: Seq<char>| #[trigger]
        has_name(new, n) <==> (has_name(old, n) || cands.contains(n))
    &&& forall|i: int| 0 <= i < old.len() ==> new.contains(#[trigger] old[i])
    &&& forall|i: int|
        0 <= i < new.len() && !has_name(old, #[trigger] new[i].0) ==> !new[i].1
    &&& (forall|k: int| 0 <= k < cands.len() ==> has_name(old, #[trigger] cands[k])) ==> new
        == old
}

/// A strictly sorted list whose names all occur in `b` (itself strictly sorted)
/// is no longer than `b`.
proof fn lemma_sorted_names_within(a: Seq<EpisodeModel>, b: Seq<EpisodeModel>)
    requires
        sorted_strict(a),
        sorted_strict(b),
        forall|i: int| 0 <= i < a.len() ==> has_name(b, #[trigger] a[i].0),
    ensures
        a.len() <= b.len(),
{
    let f = |i: int| choose|j: int| 0 <= j < b.len() && #[trigger] b[j].0 == a[i].0;
    let sa = Set::new(|i: int| 0 <= i < a.len());
    let sb = Set::new(|j: int| 0 <= j < b.len());
    assert(sa =~= vstd::set_lib::set_int_range(0, a.len() as int));
    assert(sb =~= vstd::set_lib::set_int_range(0, b.len() as int));
    vstd::set_lib::lemma_int_range(0, a.len() as int);
    vstd::set_lib::lemma_int_range(0, b.len() as int);
    assert(vstd::relations::injective_on(f, sa)) by {
        assert forall|x: int, y: int|
            sa.contains(x) && sa.contains(y) && #[trigger] f(x) == #[trigger] f(y) implies x
            == y by {
            assert(has_name(b, a[x].0));
            assert(has_name(b, a[y].0));
            if x != y {
                lemma_name_lt_irreflexive(a[x].0);
            }
        }
    }
    assert forall|v: int| sa.map(f).contains(v) implies sb.contains(v) by {
        let x = choose|x: int| sa.contains(x) && f(x) == v;
        assert(has_name(b, a[x].0));
    }
    vstd::set_lib::lemma_map_size(sa, sa.map(f), f);
    vstd::set_lib::lemma_len_subset(sa.map(f), sb);
}

/// The store `new` is `old` after merging in `cands` and binding it to `dir`:
/// dirty once anything changed.
pub open spec fn inserted(
    old: DatabaseModel,
    cands: Seq<Seq<char>>,
    dir: Seq<char>,
    new: DatabaseModel,
) -> bool {
    &&& new.series.dir == dir
    &&& reconciled(old.series.episodes, cands, new.series.episodes)
    &&& new.dirty == (old.dirty || new.series.episodes != old.series.episodes || dir
        != old.series.dir)
}

/// The series that bincode reads from `bytes`, if it reads a record and the
/// record's names are strictly ascending.
pub open spec fn decoded_series(bytes: Seq<u8>) -> Option<SeriesModel> {
    match decoded(bytes) {
        Some(c) => if sorted_strict(c.1) {
            Some(SeriesModel { dir: c.0, episodes: c.1 })
        } else {
            None
        },
        None => None,
    }
}

/// What saving `db` writes: its record when it is dirty, nothing otherwise.
pub open spec fn to_write(db: DatabaseModel) -> Option<Seq<u8>> {
    if db.dirty {
        Some(record_bytes(db.series.dir, db.series.episodes))
    } else {
        None
    }
}

/// Merging the same candidates into the same directory a second time
/// changes nothing: no episode is added twice and no flag is reset.
pub proof fn lemma_insert_idempotent(
    db0: DatabaseModel,
    cands: Seq<Seq<char>>,
    dir: Seq<char>,
    db1: DatabaseModel,
    db2: DatabaseModel,
)
    requires
        sorted_strict(db0.series.episodes),
        inserted(db0, cands, dir, db1),
        inserted(db1, cands, dir, db2),
    ensures
        db2 == db1,
{
    assert forall|k: int| 0 <= k < cands.len() implies has_name(
        db1.series.episodes,
        #[trigger] cands[k],
    ) by {
        assert(cands.contains(cands[k]));
    }
    assert(db2.series.episodes == db1.series.episodes);
    assert(db2.series == db1.series);
}

/// Marking episodes watched keeps the names, so it keeps their order.
proof fn lemma_same_names_sorted(a: Seq<EpisodeModel>, b: Seq<EpisodeModel>)
    requires
        sorted_strict(a),
        a.len() == b.len(),
        forall|i: int| 0 <= i < a.len() ==> #[trigger] a[i].0 == b[i].0,
    ensures
        sorted_strict(b),
{
    assert forall|i: int, j: int| 0 <= i < j < b.len() implies name_lt(
        #[trigger] b[i].0,
        #[trigger] b[j].0,
    ) by {
        assert(a[i].0 == b[i].0);
        assert(a[j].0 == b[j].0);
    }
}

/// Marking one episode watched keeps the names strictly ascending.
pub proof fn lemma_marked_sorted(eps: Seq<EpisodeModel>, i: int)
    requires
        sorted_strict(eps),
        0 <= i < eps.len(),
    ensures
        sorted_strict(marked(eps, i)),
{
    lemma_same_names_sorted(eps, marked(eps, i));
}

/// Marking the first `n` episodes watched keeps the names strictly ascending.
pub proof fn lemma_marked_through_sorted(eps: Seq<EpisodeModel>, n: int)
    requires
        sorted_strict(eps),
    ensures
        sorted_strict(marked_through(eps, n)),
{
    lemma_same_names_sorted(eps, marked_through(eps, n));
}

/// After a launch that succeeded, saving writes the record of the series with
/// that episode marked watched, and the names of that series are still in
/// order, so loading the record gives that series back.
pub proof fn lemma_watch_next_persists(db0: DatabaseModel, db1: DatabaseModel, i: int)
    requires
        sorted_strict(db0.series.episodes),
        is_first_unwatched(db0.series.episodes, i),
        db1.dirty,
        db1.series.dir == db0.series.dir,
        db1.series.episodes == marked(db0.series.episodes, i),
    ensures
        sorted_strict(db1.series.episodes),
        db1.series.episodes[i] == (db0.series.episodes[i].0, true),
        to_write(db1) == Some(record_bytes(db0.series.dir, marked(db0.series.episodes, i))),
{
    lemma_marked_sorted(db0.series.episodes, i);
}

/// A store that was just loaded has nothing to write: saving it leaves the
/// record as it was.
pub proof fn lemma_fresh_store_saves_nothing(db: DatabaseModel)
    requires
        !db.dirty,
    ensures
        to_write(db) is None,
{
}

/// The errors of the store and of the commands around it.
#[derive(Debug, Clone, Copy, PartialEq, Eq, Structural)]
pub enum DbError {
    /// The directory to track does not exist.
    InvalidPath,
    /// The directory holds no recognised video file.
    NoMedia,
    /// The stored record could not be read back as a series.
    RecordCorrupt,
    /// Reading or writing the record failed.
    IoFailure,
    /// The episode number exceeds the number of stored episodes.
    EpisodeNotFound,
    /// The player could not be started.
    LaunchFailure,
}

/// One video file of a series.
#[derive(Debug, PartialEq, Eq)]
pub struct Episode {
    name: String,
    watched: bool,
}

impl View for Episode {
    type V = EpisodeModel;

    closed spec fn view(&self) -> EpisodeModel {
        (self.name@, self.watched)
    }
}

impl Episode {
    /// A new, unwatched episode.
    pub fn new(name: String) -> (r: Self)
        ensures
            r@ == (name@, false),
    {
        Episode { name, watched: false }
    }

    pub fn name(&self) -> (r: &String)
        ensures
            r@ == self@.0,
    {
        &self.name
    }

    pub fn watched(&self) -> (r: bool)
        ensures
            r == self@.1,
    {
        self.watched
    }
}

/// The episodes of one tracked directory, kept in name order.
#[derive(Debug)]
pub struct Series {
    pub dir: String,
    episodes: Vec<Episode>,
}

impl View for Series {
    type V = SeriesModel;

    closed spec fn view(&self) -> SeriesModel {
        SeriesModel { dir: self.dir@, episodes: self.episodes@.map_values(|e: Episode| e@) }
    }
}

impl Series {
    /// The names are strictly ascending.
    pub open spec fn wf(&self) -> bool {
        sorted_strict(self@.episodes)
    }

    /// An empty series for `dir`.
    pub fn new(dir: String) -> (r: Self)
        ensures
            r@.dir == dir@,
            r@.episodes == Seq::<EpisodeModel>::empty(),
            r.wf(),
    {
        let r = Series { dir, episodes: Vec::new() };
        assert(r@.episodes =~= Seq::<EpisodeModel>::empty());
        r
    }

    /// The directory the series belongs to.
    pub fn dir(&self) -> (r: &String)
        ensures
            r@ == self@.dir,
    {
        &self.dir
    }

    pub fn len(&self) -> (r: usize)
        ensures
            r == self@.episodes.len(),
    {
        self.episodes.len()
    }

    /// The episode at position `i`, in name order.
    pub fn episode(&self, i: usize) -> (r: &Episode)
        requires
            i < self@.episodes.len(),
        ensures
            r@ == self@.episodes[i as int],
    {
        &self.episodes[i]
    }

    /// The contents as plain pairs, the shape in which a record holds them.
    fn to_parts(&self) -> (r: (String, Vec<(String, bool)>))
        ensures
            r.0@ == self@.dir,
            pairs_view(r.1@) == self@.episodes,
    {
        let mut pairs: Vec<(String, bool)> = Vec::new();
        let mut i: usize = 0;
        while i < self.episodes.len()
            invariant
                0 <= i <= self.episodes@.len(),
                pairs_view(pairs@) =~= self@.episodes.subrange(0, i as int),
            decreases self.episodes@.len() - i,
        {
            let e = &self.episodes[i];
            let ghost before = pairs@;
            pairs.push((e.name.clone(), e.watched));
            assert(pairs@ == before.push((e.name, e.watched)));
            assert(self@.episodes[i as int] == (e.name@, e.watched));
            assert(pairs_view(pairs@) =~= pairs_view(before).push((e.name@, e.watched)));
            assert(self@.episodes.subrange(0, i as int + 1) =~= self@.episodes.subrange(
                0,
                i as int,
            ).push((e.name@, e.watched)));
            i = i + 1;
        }
        assert(self@.episodes.subrange(0, i as int) =~= self@.episodes);
        (self.dir.clone(), pairs)
    }

    /// A series from its directory and its (name, watched) pairs; `None`
    /// unless the names are strictly ascending.
    pub fn from_parts(dir: String, pairs: Vec<(String, bool)>) -> (r: Option<Series>)
        ensures
            r is Some <==> sorted_strict(pairs_view(pairs@)),
            r matches Some(s) ==> s@ == (SeriesModel { dir: dir@, episodes: pairs_view(pairs@) }),
    {
        let ghost pv = pairs_view(pairs@);
        let mut episodes: Vec<Episode> = Vec::new();
        let mut i: usize = 0;
        while i < pairs.len()
            invariant
                0 <= i <= pairs@.len(),
                pv == pairs_view(pairs@),
                episodes@.map_values(|e: Episode| e@) =~= pv.subrange(0, i as int),
                sorted_strict(pv.subrange(0, i as int)),
            decreases pairs@.len() - i,
        {
            if i > 0 && !name_less(&pairs[i - 1].0, &pairs[i].0) {
                assert(!name_lt(pv[i - 1].0, pv[i as int].0));
                return None;
            }
            proof {
                let sub = pv.subrange(0, i as int + 1);
                assert forall|a: int, b: int| 0 <= a < b < sub.len() implies name_lt(
                    #[trigger] sub[a].0,
                    #[trigger] sub[b].0,
                ) by {
                    if b == i && a < i - 1 {
                        lemma_name_lt_transitive(sub[a].0, sub[i - 1].0, sub[b].0);
                    }
                }
            }
            let ghost before = episodes@;
            episodes.push(Episode { name: pairs[i].0.clone(), watched: pairs[i].1 });
            assert(pv[i as int] == (pairs@[i as int].0@, pairs@[i as int].1));
            assert(episodes@.map_values(|e: Episode| e@) =~= before.map_values(|e: Episode| e@).push(
                pv[i as int],
            ));
            assert(pv.subrange(0, i as int + 1) =~= pv.subrange(0, i as int).push(pv[i as int]));
            i = i + 1;
        }
        assert(pv.subrange(0, i as int) =~= pv);
        Some(Series { dir, episodes })
    }

    /// The position of the first unwatched episode, if any.
    fn first_unwatched(&self) -> (r: Option<usize>)
        ensures
            match r {
                None => all_watched(self@.episodes),
                Some(i) => is_first_unwatched(self@.episodes, i as int),
            },
    {
        let mut i: usize = 0;
        while i < self.episodes.len()
            invariant
                0 <= i <= self@.episodes.len(),
                self@.episodes.len() == self.episodes@.len(),
                forall|j: int| 0 <= j < i ==> #[trigger] self@.episodes[j].1,
            decreases self.episodes@.len() - i,
        {
            if !self.episodes[i].watched {
                return Some(i);
            }
            i = i + 1;
        }
        None
    }

    /// Adds `name` as an unwatched episode at its place in name order, unless
    /// an episode of that name is already there; returns whether it was added.
    fn merge_name(&mut self, name: &String) -> (added: bool)
        requires
            old(self).wf(),
        ensures
            final(self).wf(),
            final(self)@.dir == old(self)@.dir,
            added == !has_name(old(self)@.episodes, name@),
            !added ==> final(self)@ == old(self)@,
            added ==> final(self)@.episodes.len() == old(self)@.episodes.len() + 1,
            forall|n: Seq<char>| #[trigger]
                has_name(final(self)@.episodes, n) <==> (has_name(old(self)@.episodes, n) || n
                    == name@),
            forall|i: int|
                0 <= i < old(self)@.episodes.len() ==> final(self)@.episodes.contains(
                    #[trigger] old(self)@.episodes[i],
                ),
            forall|i: int|
                0 <= i < final(self)@.episodes.len() && !has_name(
                    old(self)@.episodes,
                    #[trigger] final(self)@.episodes[i].0,
                ) ==> !final(self)@.episodes[i].1,
    {
        let ghost e = self@.episodes;
        let mut j: usize = 0;
        while j < self.episodes.len() && name_less(&self.episodes[j].name, name)
            invariant
                self@.episodes == e,
                e.len() == self.episodes@.len(),
                0 <= j <= e.len(),
                forall|k: int| 0 <= k < j ==> name_lt(#[trigger] e[k].0, name@),
            decreases e.len() - j,
        {
            j = j + 1;
        }
        if j < self.episodes.len() && self.episodes[j].name == *name {
            assert(e[j as int].0 == name@);
            return false;
        }
        proof {
            if j < e.len() {
                assert(e[j as int].0 != name@);
                lemma_name_lt_total(e[j as int].0, name@);
                assert(name_lt(name@, e[j as int].0));
            }
            assert forall|k: int| j <= k < e.len() implies name_lt(name@, #[trigger] e[k].0) by {
                if k > j {
                    lemma_name_lt_transitive(name@, e[j as int].0, e[k].0);
                }
            }
            assert forall|k: int| 0 <= k < e.len() implies #[trigger] e[k].0 != name@ by {
                lemma_name_lt_irreflexive(name@);
            }
        }
        self.episodes.insert(j, Episode::new(name.clone()));
        proof {
            let ne = self@.episodes;
            assert(ne =~= e.insert(j as int, (name@, false)));
            assert forall|a: int, b: int| 0 <= a < b < ne.len() implies name_lt(
                #[trigger] ne[a].0,
                #[trigger] ne[b].0,
            ) by {
                if b < j {
                } else if a < j && b == j {
                } else if a < j {
                    lemma_name_lt_transitive(ne[a].0, name@, ne[b].0);
                } else if a == j {
                } else {
                }
            }
            assert forall|n: Seq<char>| #[trigger]
                has_name(ne, n) <==> (has_name(e, n) || n == name@) by {
                if has_name(ne, n) {
                    let i = choose|i: int| 0 <= i < ne.len() && #[trigger] ne[i].0 == n;
                    if i < j {
                        assert(e[i].0 == n);
                    } else if i > j {
                        assert(e[i - 1].0 == n);
                    }
                }
                if has_name(e, n) {
                    let i = choose|i: int| 0 <= i < e.len() && #[trigger] e[i].0 == n;
                    if i < j {
                        assert(ne[i].0 == n);
                    } else {
                        assert(ne[i + 1].0 == n);
                    }
                }
                if n == name@ {
                    assert(ne[j as int].0 == n);
                }
            }
            assert forall|i: int| 0 <= i < e.len() implies ne.contains(#[trigger] e[i]) by {
                if i < j {
                    assert(ne[i] == e[i]);
                } else {
                    assert(ne[i + 1] == e[i]);
                }
            }
            assert forall|i: int|
                0 <= i < ne.len() && !has_name(e, #[trigger] ne[i].0) implies !ne[i].1 by {
                if i < j {
                    assert(e[i].0 == ne[i].0);
                } else if i > j {
                    assert(e[i - 1].0 == ne[i].0);
                }
            }
        }
        true
    }

    /// Marks the episode at position `i` watched.
    fn mark_at(&mut self, i: usize)
        requires
            i < old(self)@.episodes.len(),
        ensures
            final(self)@.dir == old(self)@.dir,
            final(self)@.episodes == marked(old(self)@.episodes, i as int),
    {
        let e = Episode { name: self.episodes[i].name.clone(), watched: true };
        self.episodes.set(i, e);
        assert(self@.episodes =~= marked(old(self)@.episodes, i as int));
    }
}

/// The store of one tracked directory: its series and whether it differs
/// from the last record written.
#[derive(Debug)]
pub struct Database {
    pub series: Series,
    dirty: bool,
}

/// A store as the contracts see it.
pub ghost struct DatabaseModel {
    pub series: SeriesModel,
    pub dirty: bool,
}

impl View for Database {
    type V = DatabaseModel;

    closed spec fn view(&self) -> DatabaseModel {
        DatabaseModel { series: self.series@, dirty: self.dirty }
    }
}

impl Database {
    /// The names of the series are strictly ascending.
    pub open spec fn wf(&self) -> bool {
        sorted_strict(self@.series.episodes)
    }

    /// A store holding `series`, in step with its record.
    pub fn from_series(series: Series) -> (r: Database)
        ensures
            r@.series == series@,
            !r@.dirty,
    {
        Database { series, dirty: false }
    }

    /// Whether the store has changes that were not written yet.
    pub fn is_dirty(&self) -> (r: bool)
        ensures
            r == self@.dirty,
    {
        self.dirty
    }

    /// Records that the store has been written.
    pub fn mark_saved(&mut self)
        ensures
            final(self)@.series == old(self)@.series,
            !final(self)@.dirty,
    {
        self.dirty = false;
    }

    /// Merges the candidate names into the series: names not yet present are
    /// added unwatched, present ones keep their flag, and the list stays in
    /// strictly ascending name order. The series is then bound to `dir`.
    /// The store turns dirty when an episode was added or `dir` changed.
    pub fn insert(&mut self, shows: &Vec<String>, dir: String)
        requires
            old(self).wf(),
        ensures
            final(self).wf(),
            inserted(old(self)@, shows@.map_values(|s: String| s@), dir@, final(self)@),
    {
        let ghost e0 = self.series@.episodes;
        let ghost cands = shows@.map_values(|s: String| s@);
        let mut changed = false;
        let mut i: usize = 0;
        while i < shows.len()
            invariant
                0 <= i <= shows@.len(),
                cands == shows@.map_values(|s: String| s@),
                self.wf(),
                self.series@.dir == old(self)@.series.dir,
                self.dirty == old(self).dirty,
                forall|n: Seq<char>| #[trigger]
                    has_name(self.series@.episodes, n) <==> (has_name(e0, n) || cands.subrange(
                        0,
                        i as int,
                    ).contains(n)),
                forall|k: int| 0 <= k < e0.len() ==> self.series@.episodes.contains(#[trigger] e0[k]),
                forall|k: int|
                    0 <= k < self.series@.episodes.len() && !has_name(
                        e0,
                        #[trigger] self.series@.episodes[k].0,
                    ) ==> !self.series@.episodes[k].1,
                !changed ==> self.series@.episodes == e0,
                changed ==> self.series@.episodes.len() > e0.len(),
            decreases shows@.len() - i,
        {
            let ghost before = self.series@.episodes;
            let added = self.series.merge_name(&shows[i]);
            proof {
                let after = self.series@.episodes;
                assert forall|n: Seq<char>| #[trigger]
                    has_name(after, n) <==> (has_name(e0, n) || cands.subrange(
                        0,
                        i as int + 1,
                    ).contains(n)) by {
                    assert(cands.subrange(0, i as int + 1) =~= cands.subrange(0, i as int).push(
                        cands[i as int],
                    ));
                    if cands.subrange(0, i as int).contains(n) {
                        let k = choose|k: int|
                            0 <= k < i && #[trigger] cands.subrange(0, i as int)[k] == n;
                        assert(cands.subrange(0, i as int + 1)[k] == n);
                    }
                    if n == cands[i as int] {
                        assert(cands.subrange(0, i as int + 1)[i as int] == n);
                    }
                }
                assert forall|k: int| 0 <= k < e0.len() implies after.contains(#[trigger] e0[k]) by {
                    let m = choose|m: int| 0 <= m < before.len() && before[m] == e0[k];
                    assert(after.contains(before[m]));
                }
                assert forall|k: int|
                    0 <= k < after.len() && !has_name(e0, #[trigger] after[k].0) implies !after[k].1 by {
                    if !has_name(before, after[k].0) {
                    } else {
                        let m = choose|m: int| 0 <= m < before.len() && #[trigger] before[m].0 == after[k].0;
                        assert(!before[m].1);
                        assert(after.contains(before[m]));
                        let q = choose|q: int| 0 <= q < after.len() && after[q] == before[m];
                        assert(after[q].0 == after[k].0);
                        if q != k {
                            lemma_name_lt_irreflexive(after[k].0);
                        }
                    }
                }
            }
            if added {
                changed = true;
            }
            i = i + 1;
        }
        proof {
            assert(cands.subrange(0, shows@.len() as int) =~= cands);
            let ne = self.series@.episodes;
            if forall|k: int| 0 <= k < cands.len() ==> has_name(e0, #[trigger] cands[k]) {
                if changed {
                    assert(ne.len() > e0.len());
                    // every name of the merged list was already present
                    assert forall|a: int| 0 <= a < ne.len() implies has_name(e0, #[trigger] ne[a].0) by {
                        assert(has_name(ne, ne[a].0));
                        if cands.contains(ne[a].0) {
                            let k = choose|k: int| 0 <= k < cands.len() && cands[k] == ne[a].0;
                            assert(has_name(e0, cands[k]));
                        }
                    }
                    lemma_sorted_names_within(ne, e0);
                }
            }
        }
        let same_dir = self.series.dir == dir;
        self.series.dir = dir;
        if changed || !same_dir {
            self.dirty = true;
        }
    }

    /// The alphabetically earliest unwatched episode, if any.
    pub fn find_next_unwatched(&self) -> (r: Option<&Episode>)
        ensures
            match r {
                None => all_watched(self@.series.episodes),
                Some(e) => exists|i: int|
                    is_first_unwatched(self@.series.episodes, i) && e@ == #[trigger] self@.series.episodes[i],
            },
    {
        assert(self@.series == self.series@);
        match self.series.first_unwatched() {
            None => None,
            Some(i) => {
                assert(self.series.episodes@[i as int]@ == self@.series.episodes[i as int]);
                Some(&self.series.episodes[i])
            },
        }
    }

    /// Marks the episode called `name` watched; without such an episode the
    /// store is left as it is.
    pub fn mark_single_watched(&mut self, name: &String)
        requires
            old(self).wf(),
        ensures
            final(self).wf(),
            final(self)@.series.dir == old(self)@.series.dir,
            match index_of(old(self)@.series.episodes, name@) {
                Some(i) => final(self)@.series.episodes == marked(old(self)@.series.episodes, i)
                    && final(self)@.dirty,
                None => final(self)@ == old(self)@,
            },
    {
        let ghost e = self.series@.episodes;
        let mut i: usize = 0;
        while i < self.series.episodes.len()
            invariant
                self@ == old(self)@,
                self.series@.episodes == e,
                sorted_strict(e),
                e.len() == self.series.episodes@.len(),
                0 <= i <= e.len(),
                forall|k: int| 0 <= k < i ==> #[trigger] e[k].0 != name@,
            decreases e.len() - i,
        {
            if self.series.episodes[i].name == *name {
                proof {
                    lemma_index_of(e, name@, i as int);
                }
                self.series.mark_at(i);
                self.dirty = true;
                proof {
                    lemma_marked_sorted(e, i as int);
                }
                return;
            }
            i = i + 1;
        }
    }

    /// Advances the store after the player was asked to open the episode that
    /// `find_next_unwatched` gives. With no unwatched episode nothing happens.
    /// If the launch failed the store is left untouched and `LaunchFailure`
    /// returned; if it succeeded that episode is marked watched.
    pub fn watch_next(&mut self, launched: bool) -> (r: Result<(), DbError>)
        requires
            old(self).wf(),
        ensures
            final(self).wf(),
            all_watched(old(self)@.series.episodes) ==> r == Ok::<(), DbError>(()) && final(self)@
                == old(self)@,
            !all_watched(old(self)@.series.episodes) && !launched ==> r == Err::<(), DbError>(
                DbError::LaunchFailure,
            ) && final(self)@ == old(self)@,
            !all_watched(old(self)@.series.episodes) && launched ==> r == Ok::<(), DbError>(())
                && final(self)@.dirty && final(self)@.series.dir == old(self)@.series.dir
                && exists|i: int|
                is_first_unwatched(old(self)@.series.episodes, i) && #[trigger] final(self)@.series.episodes
                    == marked(old(self)@.series.episodes, i),
    {
        match self.series.first_unwatched() {
            None => Ok(()),
            Some(i) => {
                if !launched {
                    return Err(DbError::LaunchFailure);
                }
                let ghost e = self.series@.episodes;
                self.series.mark_at(i);
                self.dirty = true;
                proof {
                    lemma_marked_sorted(e, i as int);
                }
                Ok(())
            },
        }
    }

    /// Marks the first `episode_number` episodes watched, all or nothing:
    /// fails with `EpisodeNotFound`, touching nothing, when there are fewer.
    pub fn watch_up_to(&mut self, episode_number: usize) -> (r: Result<(), DbError>)
        requires
            old(self).wf(),
        ensures
            final(self).wf(),
            episode_number > old(self)@.series.episodes.len() ==> r == Err::<(), DbError>(
                DbError::EpisodeNotFound,
            ) && final(self)@ == old(self)@,
            episode_number <= old(self)@.series.episodes.len() ==> r == Ok::<(), DbError>(())
                && final(self)@.dirty && final(self)@.series.dir == old(self)@.series.dir && final(self)@.series.episodes
                == marked_through(old(self)@.series.episodes, episode_number as int),
    {
        if self.series.episodes.len() < episode_number {
            return Err(DbError::EpisodeNotFound);
        }
        let ghost e = self.series@.episodes;
        let mut i: usize = 0;
        while i < episode_number
            invariant
                episode_number <= e.len(),
                0 <= i <= episode_number,
                self.series@.dir == old(self)@.series.dir,
                self.series@.episodes =~= marked_through(e, i as int),
            decreases episode_number - i,
        {
            self.series.mark_at(i);
            assert(self.series@.episodes =~= marked_through(e, i as int + 1));
            i = i + 1;
        }
        self.dirty = true;
        proof {
            lemma_marked_through_sorted(e, episode_number as int);
        }
        Ok(())
    }

    /// Takes a directory listing: keeps its video files and merges them into
    /// the series, bound to `dir`. Fails with `NoMedia`, touching nothing,
    /// when the listing holds no video file.
    pub fn add(&mut self, files: &Vec<String>, dir: String) -> (r: Result<(), DbError>)
        requires
            old(self).wf(),
        ensures
            final(self).wf(),
            ({
                let videos = files@.map_values(|s: String| s@).filter(
                    |n: Seq<char>| is_video_chars(n),
                );
                &&& videos.len() == 0 ==> r == Err::<(), DbError>(DbError::NoMedia) && final(self)@
                    == old(self)@
                &&& videos.len() > 0 ==> r == Ok::<(), DbError>(()) && inserted(
                    old(self)@,
                    videos,
                    dir@,
                    final(self)@,
                )
            }),
    {
        let videos = filter_videos(files);
        if videos.len() == 0 {
            return Err(DbError::NoMedia);
        }
        self.insert(&videos, dir);
        Ok(())
    }

    /// A store for `data_dir`, read from its record if there is one. No
    /// record gives an empty series; a record that cannot be read back, or
    /// whose names are not strictly ascending, gives `RecordCorrupt`.
    /// A store just made or loaded is never dirty.
    pub fn init(data_dir: String, record: Option<Vec<u8>>) -> (r: Result<Database, DbError>)
        ensures
            r matches Ok(db) ==> db.wf() && !db@.dirty,
            record is None ==> (r matches Ok(db) && db@.series == (SeriesModel {
                dir: data_dir@,
                episodes: Seq::empty(),
            })),
            record matches Some(b) ==> match r {
                Ok(db) => decoded_series(b@) == Some(db@.series),
                Err(e) => e == DbError::RecordCorrupt && decoded_series(b@) is None,
            },
            record matches Some(b) ==> forall|m: SeriesModel|
                sorted_strict(m.episodes) && #[trigger] record_bytes(m.dir, m.episodes) == b@
                    ==> (r matches Ok(db) && db@.series == m),
    {
        match record {
            None => Ok(Database::from_series(Series::new(data_dir))),
            Some(bytes) => match Database::deserialize(bytes.as_slice()) {
                Ok(series) => Ok(Database::from_series(series)),
                Err(e) => Err(e),
            },
        }
    }

    /// The record of `data`; encoding a series never fails, and bincode reads
    /// the series back from it.
    pub fn serialize(data: &Series) -> (r: Result<Vec<u8>, DbError>)
        ensures
            r is Ok,
            r matches Ok(b) ==> b@ == record_bytes(data@.dir, data@.episodes),
            r matches Ok(b) ==> decoded(b@) == Some((data@.dir, data@.episodes)),
            r matches Ok(b) ==> (data.wf() ==> decoded_series(b@) == Some(data@)),
    {
        let parts = data.to_parts();
        match encode_record(&parts) {
            Ok(bytes) => Ok(bytes),
            Err(_) => Err(DbError::IoFailure),
        }
    }

    /// The series that `bytes` records: what bincode reads from them, provided
    /// its names are strictly ascending; anything else is `RecordCorrupt`.
    /// Reading back the record of a series gives that series again.
    pub fn deserialize(bytes: &[u8]) -> (r: Result<Series, DbError>)
        ensures
            match r {
                Ok(s) => s.wf() && decoded_series(bytes@) == Some(s@),
                Err(e) => e == DbError::RecordCorrupt && decoded_series(bytes@) is None,
            },
            bytes@.len() < 16 ==> r is Err,
            r matches Ok(s) ==> is_prefix(record_bytes(s@.dir, s@.episodes), bytes@),
            forall|m: SeriesModel|
                sorted_strict(m.episodes) && #[trigger] record_bytes(m.dir, m.episodes) == bytes@
                    ==> (r matches Ok(s) && s@ == m),
    {
        let decoded = decode_record(bytes);
        proof {
            assert forall|m: SeriesModel|
                sorted_strict(m.episodes) && #[trigger] record_bytes(m.dir, m.episodes) == bytes@
                    implies decoded matches Ok(v) && v.0@ == m.dir && pairs_view(v.1@)
                == m.episodes by {
                let c: RecordContents = (m.dir, m.episodes);
                assert(record_bytes(c.0, c.1) == bytes@);
            }
        }
        match decoded {
            Ok(parts) => {
                let (dir, pairs) = parts;
                match Series::from_parts(dir, pairs) {
                    Some(s) => Ok(s),
                    None => Err(DbError::RecordCorrupt),
                }
            },
            Err(_) => Err(DbError::RecordCorrupt),
        }
    }

    /// What saving the store has to write: nothing when it is not dirty,
    /// else its record, which can always be produced. The store stays dirty until `mark_saved`.
    pub fn pending_record(&self) -> (r: Result<Option<Vec<u8>>, DbError>)
        ensures
            r is Ok,
            r matches Ok(w) ==> match w {
                Some(b) => to_write(self@) == Some(b@),
                None => to_write(self@) is None,
            },
    {
        if !self.dirty {
            return Ok(None);
        }
        match Database::serialize(&self.series) {
            Ok(b) => Ok(Some(b)),
            Err(e) => Err(e),
        }
    }
}

} // verus!
