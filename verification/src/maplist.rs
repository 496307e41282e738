//! The map compatibility ledger, which records per map whether it loaded, and
//! where a map's BSP file lives under a Counter-Strike install.
use vstd::prelude::*;
use crate::text::{chars_of, same_text, string_from_chars};

verus! {

broadcast use vstd::string::group_string_axioms;

/// Outcome recorded for a map.
#[derive(Clone, Copy, Debug, PartialEq, Eq, Structural)]
pub enum MapStatus {
    Passed,
    Failed,
    Untested,
}

/// What the ledger records for one map: its status and, for a failure, why.
#[derive(Clone, Debug)]
pub struct MapRecord {
    pub status: MapStatus,
    pub reason: Option<String>,
}

/// Mathematical view of a [`MapRecord`].
pub struct MapRecordSpec {
    pub status: MapStatus,
    pub reason: Option<Seq<char>>,
}

impl View for MapRecord {
    type V = MapRecordSpec;

    open spec fn view(&self) -> MapRecordSpec {
        MapRecordSpec {
            status: self.status,
            reason: match self.reason {
                Some(r) => Some(r@),
                None => None,
            },
        }
    }
}

/// The ledger: at most one record per map name. The records are kept as a
/// list of `(name, record)` pairs with no name twice, rather than a
/// `HashMap<String, _>`: vstd specifies `HashMap` lookups and inserts only for
/// keys whose hashing it models (integers and the like), and with `String`
/// keys none of the ledger's laws could be stated over it.
pub struct Compatibility {
    maps: Vec<(String, MapRecord)>,
}

/// The records of a list of entries, later entries replacing earlier ones.
pub open spec fn map_of(s: Seq<(String, MapRecord)>) -> Map<Seq<char>, MapRecordSpec>
    decreases s.len(),
{
    if s.len() == 0 {
        Map::empty()
    } else {
        map_of(s.drop_last()).insert(s.last().0@, s.last().1@)
    }
}

/// No name occurs twice.
pub open spec fn distinct_names(s: Seq<(String, MapRecord)>) -> bool {
    forall|i: int, j: int| 0 <= i < j < s.len() ==> (#[trigger] s[i]).0@ != (#[trigger] s[j]).0@
}

/// The record of `ok` for a map.
pub open spec fn ok_record() -> MapRecordSpec {
    MapRecordSpec { status: MapStatus::Passed, reason: None }
}

/// The record of a failure with its reason.
pub open spec fn failed_record(reason: Seq<char>) -> MapRecordSpec {
    MapRecordSpec { status: MapStatus::Failed, reason: Some(reason) }
}

/// Whether the ledger marks the map as failed.
pub open spec fn excluded(m: Map<Seq<char>, MapRecordSpec>, map: Seq<char>) -> bool {
    m.contains_key(map) && m[map].status == MapStatus::Failed
}

proof fn lemma_map_of_keys(s: Seq<(String, MapRecord)>, k: Seq<char>)
    ensures
        map_of(s).contains_key(k) <==> exists|i: int| 0 <= i < s.len() && (#[trigger] s[i]).0@ == k,
    decreases s.len(),
{
    if s.len() > 0 {
        lemma_map_of_keys(s.drop_last(), k);
        if map_of(s.drop_last()).contains_key(k) {
            let i = choose|i: int| 0 <= i < s.drop_last().len() && (#[trigger] s.drop_last()[i]).0@ == k;
            assert(s[i] == s.drop_last()[i]);
        }
        if exists|i: int| 0 <= i < s.len() && (#[trigger] s[i]).0@ == k {
            let i = choose|i: int| 0 <= i < s.len() && (#[trigger] s[i]).0@ == k;
            if i < s.len() - 1 {
                assert(s.drop_last()[i] == s[i]);
            }
        }
    }
}

proof fn lemma_map_of_at(s: Seq<(String, MapRecord)>, i: int)
    requires
        distinct_names(s),
        0 <= i < s.len(),
    ensures
        map_of(s).contains_key(s[i].0@),
        map_of(s)[s[i].0@] == s[i].1@,
    decreases s.len(),
{
    if i < s.len() - 1 {
        assert(s.drop_last()[i] == s[i]);
        lemma_map_of_at(s.drop_last(), i);
        assert(s.last() == s[s.len() - 1]);
    }
}

proof fn lemma_map_of_update(s: Seq<(String, MapRecord)>, i: int, e: (String, MapRecord))
    requires
        distinct_names(s),
        0 <= i < s.len(),
        s[i].0@ == e.0@,
    ensures
        distinct_names(s.update(i, e)),
        map_of(s.update(i, e)) =~= map_of(s).insert(e.0@, e.1@),
    decreases s.len(),
{
    let t = s.update(i, e);
    assert forall|a: int, b: int| 0 <= a < b < t.len() implies (#[trigger] t[a]).0@ != (#[trigger] t[b]).0@ by {
        assert(s[a].0@ != s[b].0@);
    }
    if i == s.len() - 1 {
        assert(t.drop_last() =~= s.drop_last());
    } else {
        assert(t.drop_last() =~= s.drop_last().update(i, e));
        lemma_map_of_update(s.drop_last(), i, e);
        assert(s.last().0@ != e.0@) by {
            assert(s[i].0@ != s[s.len() - 1].0@);
        }
    }
}

impl View for Compatibility {
    type V = Map<Seq<char>, MapRecordSpec>;

    closed spec fn view(&self) -> Map<Seq<char>, MapRecordSpec> {
        map_of(self.maps@)
    }
}

impl Compatibility {
    #[verifier::type_invariant]
    spec fn inv(&self) -> bool {
        distinct_names(self.maps@)
    }

    /// An empty ledger.
    pub fn new() -> (c: Self)
        ensures
            c@ == Map::<Seq<char>, MapRecordSpec>::empty(),
    {
        Compatibility { maps: Vec::new() }
    }

    /// The position of the entry for `map`, if there is one.
    fn position(&self, map: &str) -> (r: Option<usize>)
        ensures
            match r {
                Some(i) => i < self.maps@.len() && self.maps@[i as int].0@ == map@,
                None => forall|i: int| 0 <= i < self.maps@.len() ==> (#[trigger] self.maps@[i]).0@ != map@,
            },
    {
        let want = chars_of(map);
        let mut k: usize = 0;
        while k < self.maps.len()
            invariant
                want@ == map@,
                k <= self.maps@.len(),
                forall|i: int| 0 <= i < k ==> (#[trigger] self.maps@[i]).0@ != map@,
            decreases self.maps@.len() - k,
        {
            let have = chars_of(self.maps[k].0.as_str());
            if same_text(&have, &want) {
                return Some(k);
            }
            k = k + 1;
        }
        None
    }

    /// Record `rec` for `map`, replacing what was there.
    pub fn set_record(&mut self, map: &str, rec: MapRecord)
        ensures
            final(self)@ == old(self)@.insert(map@, rec@),
    {
        proof {
            use_type_invariant(&*self);
        }
        let name = String::from_str(map);
        match self.position(map) {
            Some(i) => {
                let ghost s = self.maps@;
                proof {
                    lemma_map_of_update(s, i as int, (name, rec));
                }
                let mut maps: Vec<(String, MapRecord)> = Vec::new();
                std::mem::swap(&mut maps, &mut self.maps);
                maps.set(i, (name, rec));
                self.maps = maps;
            },
            None => {
                let ghost s = self.maps@;
                let mut maps: Vec<(String, MapRecord)> = Vec::new();
                std::mem::swap(&mut maps, &mut self.maps);
                maps.push((name, rec));
                proof {
                    assert(maps@.drop_last() =~= s);
                    assert forall|a: int, b: int| 0 <= a < b < maps@.len() implies (#[trigger] maps@[a]).0@ != (#[trigger] maps@[b]).0@ by {
                        if b < s.len() {
                            assert(maps@[a] == s[a] && maps@[b] == s[b]);
                        } else {
                            assert(maps@[a] == s[a]);
                        }
                    }
                }
                self.maps = maps;
            },
        }
    }

    /// Mark `map` as loading fine, dropping any earlier reason.
    pub fn set_ok(&mut self, map: &str)
        ensures
            final(self)@ == old(self)@.insert(map@, ok_record()),
    {
        self.set_record(map, MapRecord { status: MapStatus::Passed, reason: None });
    }

    /// Mark `map` as failed, with the reason.
    pub fn set_failed(&mut self, map: &str, reason: String)
        ensures
            final(self)@ == old(self)@.insert(map@, failed_record(reason@)),
    {
        self.set_record(map, MapRecord { status: MapStatus::Failed, reason: Some(reason) });
    }

    /// Whether `map` is marked as failed; untested and unknown maps are not.
    pub fn is_excluded(&self, map: &str) -> (b: bool)
        ensures
            b == excluded(self@, map@),
    {
        proof {
            use_type_invariant(self);
        }
        match self.position(map) {
            Some(i) => {
                proof {
                    lemma_map_of_at(self.maps@, i as int);
                }
                self.maps[i].1.status == MapStatus::Failed
            },
            None => {
                proof {
                    lemma_map_of_keys(self.maps@, map@);
                }
                false
            },
        }
    }

    /// The record of `map`, if the ledger has one.
    pub fn get(&self, map: &str) -> (r: Option<&MapRecord>)
        ensures
            match r {
                Some(rec) => self@.contains_key(map@) && self@[map@] == rec@,
                None => !self@.contains_key(map@),
            },
    {
        proof {
            use_type_invariant(self);
        }
        match self.position(map) {
            Some(i) => {
                proof {
                    lemma_map_of_at(self.maps@, i as int);
                }
                Some(&self.maps[i].1)
            },
            None => {
                proof {
                    lemma_map_of_keys(self.maps@, map@);
                }
                None
            },
        }
    }

    /// Every entry of the ledger, one per map, in no particular order.
    pub fn entries(&self) -> (r: &Vec<(String, MapRecord)>)
        ensures
            map_of(r@) == self@,
            distinct_names(r@),
    {
        proof {
            use_type_invariant(self);
        }
        &self.maps
    }
}

impl Default for Compatibility {
    fn default() -> (c: Self)
        ensures
            c@ == Map::<Seq<char>, MapRecordSpec>::empty(),
    {
        Compatibility::new()
    }
}

/// A map marked ok is not excluded.
pub proof fn law_ok_not_excluded(before: Map<Seq<char>, MapRecordSpec>, map: Seq<char>)
    ensures
        !excluded(before.insert(map, ok_record()), map),
{
}

/// A map marked failed is excluded, whatever the reason.
pub proof fn law_failed_excluded(before: Map<Seq<char>, MapRecordSpec>, map: Seq<char>, reason: Seq<char>)
    ensures
        excluded(before.insert(map, failed_record(reason)), map),
{
}

/// Marking one map leaves whether any other map is excluded unchanged.
pub proof fn law_other_maps_unchanged(
    before: Map<Seq<char>, MapRecordSpec>,
    map: Seq<char>,
    rec: MapRecordSpec,
    other: Seq<char>,
)
    requires
        other != map,
    ensures
        excluded(before.insert(map, rec), other) == excluded(before, other),
{
}

/// The latest mark wins: marking a map twice leaves the second record.
pub proof fn law_last_mark_wins(
    before: Map<Seq<char>, MapRecordSpec>,
    map: Seq<char>,
    first: MapRecordSpec,
    second: MapRecordSpec,
)
    ensures
        before.insert(map, first).insert(map, second) == before.insert(map, second),
{
    assert(before.insert(map, first).insert(map, second) =~= before.insert(map, second));
}

/// A map absent from the ledger is not excluded.
pub proof fn law_unknown_not_excluded(map: Seq<char>)
    ensures
        !excluded(Map::<Seq<char>, MapRecordSpec>::empty(), map),
{
}

// ---------------------------------------------------------------------------
// Where a map's BSP lives.
// ---------------------------------------------------------------------------

/// `base` joined with the relative path `part`, with one `/` between them
/// unless `base` is empty or already ends in `/`. `/` separates path
/// components on every platform the screensaver runs on, Windows included.
pub open spec fn joined(base: Seq<char>, part: Seq<char>) -> Seq<char> {
    if base.len() == 0 || base.last() == '/' {
        base + part
    } else {
        base + seq!['/'] + part
    }
}

/// The game directories searched, in order: `cstrike`, then `czero`.
pub open spec fn game_dir(k: int) -> Seq<char> {
    if k == 0 {
        seq!['c', 's', 't', 'r', 'i', 'k', 'e']
    } else {
        seq!['c', 'z', 'e', 'r', 'o']
    }
}

/// `<install>/<game>/maps/<map>.bsp`.
pub open spec fn bsp_candidate(install: Seq<char>, k: int, map: Seq<char>) -> Seq<char> {
    joined(joined(joined(install, game_dir(k)), seq!['m', 'a', 'p', 's']), map + seq!['.', 'b', 's', 'p'])
}

/// The message for a map whose BSP is in neither game directory.
pub open spec fn bsp_not_found(map: Seq<char>, install: Seq<char>) -> Seq<char> {
    seq!['B', 'S', 'P', ' ', 'n', 'o', 't', ' ', 'f', 'o', 'u', 'n', 'd', ' ', 'f', 'o', 'r', ' ', 'm', 'a', 'p', ' ', '\'']
        + map + seq!['\'', ' ', 'i', 'n', ' '] + install
}

pub(crate) fn push_chars(out: &mut Vec<char>, part: &[char])
    ensures
        final(out)@ == old(out)@ + part@,
{
    let ghost start = old(out)@;
    let mut k: usize = 0;
    while k < part.len()
        invariant
            k <= part@.len(),
            out@ == start + part@.take(k as int),
        decreases part@.len() - k,
    {
        out.push(part[k]);
        k = k + 1;
        assert(out@ =~= start + part@.take(k as int));
    }
    assert(part@.take(part@.len() as int) =~= part@);
}

pub(crate) fn join_chars(base: &mut Vec<char>, part: &[char])
    ensures
        final(base)@ == joined(old(base)@, part@),
{
    let n = base.len();
    if n > 0 && base[n - 1] != '/' {
        base.push('/');
    }
    push_chars(base, part);
}

/// The path of the map's BSP under one game directory (`0`: `cstrike`,
/// `1`: `czero`).
pub fn bsp_candidate_path(cs_install_path: &str, k: usize, map_name: &str) -> (p: String)
    requires
        k < 2,
    ensures
        p@ == bsp_candidate(cs_install_path@, k as int, map_name@),
{
    let mut path = chars_of(cs_install_path);
    if k == 0 {
        join_chars(&mut path, &['c', 's', 't', 'r', 'i', 'k', 'e']);
    } else {
        join_chars(&mut path, &['c', 'z', 'e', 'r', 'o']);
    }
    join_chars(&mut path, &['m', 'a', 'p', 's']);
    let mut file = chars_of(map_name);
    push_chars(&mut file, &['.', 'b', 's', 'p']);
    join_chars(&mut path, file.as_slice());
    string_from_chars(path.as_slice())
}

/// Pick the BSP path given which candidates exist (`exists[k]` for game
/// directory `k`): the first that exists, else the not-found message.
pub fn choose_bsp(cs_install_path: &str, map_name: &str, exists: &[bool; 2]) -> (r: Result<String, String>)
    ensures
        exists[0] ==> (r matches Ok(p) && p@ == bsp_candidate(cs_install_path@, 0, map_name@)),
        !exists[0] && exists[1] ==> (r matches Ok(p) && p@ == bsp_candidate(cs_install_path@, 1, map_name@)),
        !exists[0] && !exists[1] ==> (r matches Err(m) && m@ == bsp_not_found(map_name@, cs_install_path@)),
{
    if exists[0] {
        Ok(bsp_candidate_path(cs_install_path, 0, map_name))
    } else if exists[1] {
        Ok(bsp_candidate_path(cs_install_path, 1, map_name))
    } else {
        let mut msg: Vec<char> = Vec::new();
        push_chars(&mut msg, &['B', 'S', 'P', ' ', 'n', 'o', 't', ' ', 'f', 'o', 'u', 'n', 'd', ' ', 'f', 'o', 'r', ' ', 'm', 'a', 'p', ' ', '\'']);
        let map = chars_of(map_name);
        push_chars(&mut msg, map.as_slice());
        push_chars(&mut msg, &['\'', ' ', 'i', 'n', ' ']);
        let install = chars_of(cs_install_path);
        push_chars(&mut msg, install.as_slice());
        Err(string_from_chars(msg.as_slice()))
    }
}

/// Whether something exists at the path (`std::path::Path::exists`); the
/// answer depends on the file system at the time of the call.
#[verifier::external_body]
pub(crate) fn path_exists(path: &str) -> bool {
    std::path::Path::new(path).exists()
}

/// Locate the map's BSP: `<install>/cstrike/maps/<map>.bsp` if it exists, else
/// `<install>/czero/maps/<map>.bsp` if that exists, else an error naming the
/// map and the install path.
pub fn resolve_bsp(cs_install_path: &str, map_name: &str) -> (r: Result<String, String>)
    ensures
        match r {
            Ok(p) => p@ == bsp_candidate(cs_install_path@, 0, map_name@)
                || p@ == bsp_candidate(cs_install_path@, 1, map_name@),
            Err(m) => m@ == bsp_not_found(map_name@, cs_install_path@),
        },
{
    let first = bsp_candidate_path(cs_install_path, 0, map_name);
    let second = bsp_candidate_path(cs_install_path, 1, map_name);
    let exists = [path_exists(first.as_str()), path_exists(second.as_str())];
    choose_bsp(cs_install_path, map_name, &exists)
}

// ---------------------------------------------------------------------------
// Where a map's NAV file lives.
// ---------------------------------------------------------------------------

/// `<base>/<game>/maps/<map>.nav`.
pub open spec fn nav_candidate(base: Seq<char>, k: int, map: Seq<char>) -> Seq<char> {
    joined(joined(joined(base, game_dir(k)), seq!['m', 'a', 'p', 's']), map + seq!['.', 'n', 'a', 'v'])
}

/// The directories searched for NAV files: the install itself, then its
/// sibling installs in the order given.
pub open spec fn nav_bases(install: Seq<char>, siblings: Seq<String>) -> Seq<Seq<char>> {
    seq![install] + siblings.map_values(|s: String| s@)
}

/// The NAV paths tried, in order: `cstrike`, then `czero`, under each base.
pub open spec fn nav_candidates(bases: Seq<Seq<char>>, map: Seq<char>) -> Seq<Seq<char>> {
    Seq::new(2 * bases.len(), |i: int| nav_candidate(bases[i / 2], i % 2, map))
}

/// The first position whose flag is set.
pub open spec fn first_set(flags: Seq<bool>) -> Option<int>
    decreases flags.len(),
{
    if flags.len() == 0 {
        None
    } else if flags[0] {
        Some(0)
    } else {
        match first_set(flags.drop_first()) {
            Some(i) => Some(i + 1),
            None => None,
        }
    }
}

/// The path of the map's NAV file under one base directory (`0`: `cstrike`,
/// `1`: `czero`).
pub fn nav_candidate_path(base: &str, k: usize, map_name: &str) -> (p: String)
    requires
        k < 2,
    ensures
        p@ == nav_candidate(base@, k as int, map_name@),
{
    let mut path = chars_of(base);
    if k == 0 {
        join_chars(&mut path, &['c', 's', 't', 'r', 'i', 'k', 'e']);
    } else {
        join_chars(&mut path, &['c', 'z', 'e', 'r', 'o']);
    }
    join_chars(&mut path, &['m', 'a', 'p', 's']);
    let mut file = chars_of(map_name);
    push_chars(&mut file, &['.', 'n', 'a', 'v']);
    join_chars(&mut path, file.as_slice());
    string_from_chars(path.as_slice())
}

/// Every NAV path to try, in order.
pub fn nav_candidate_paths(cs_install_path: &str, map_name: &str, siblings: &Vec<String>) -> (r: Vec<String>)
    ensures
        r@.map_values(|p: String| p@) == nav_candidates(nav_bases(cs_install_path@, siblings@), map_name@),
{
    let ghost bases = nav_bases(cs_install_path@, siblings@);
    let ghost want = nav_candidates(bases, map_name@);
    let mut r: Vec<String> = Vec::new();
    r.push(nav_candidate_path(cs_install_path, 0, map_name));
    r.push(nav_candidate_path(cs_install_path, 1, map_name));
    assert(0int / 2 == 0 && 0int % 2 == 0 && 1int / 2 == 0 && 1int % 2 == 1);
    assert(want[0] == nav_candidate(bases[0], 0, map_name@));
    assert(want[1] == nav_candidate(bases[0], 1, map_name@));
    assert(r@.map_values(|p: String| p@) =~= want.take(2));
    let mut i: usize = 0;
    while i < siblings.len()
        invariant
            bases == nav_bases(cs_install_path@, siblings@),
            want == nav_candidates(bases, map_name@),
            i <= siblings@.len(),
            r@.map_values(|p: String| p@) == want.take(2 * i + 2),
        decreases siblings@.len() - i,
    {
        let ghost before = r@.map_values(|p: String| p@);
        r.push(nav_candidate_path(siblings[i].as_str(), 0, map_name));
        r.push(nav_candidate_path(siblings[i].as_str(), 1, map_name));
        proof {
            let a = 2 * i + 2;
            assert(bases.len() == siblings@.len() + 1);
            assert(bases[i + 1] == siblings@[i as int]@);
            assert(a / 2 == i + 1 && a % 2 == 0);
            assert((a + 1) / 2 == i + 1 && (a + 1) % 2 == 1);
            assert(want[a] == nav_candidate(bases[i + 1], 0, map_name@));
            assert(want[a + 1] == nav_candidate(bases[i + 1], 1, map_name@));
            assert(r@.map_values(|p: String| p@) =~= before.push(want[a]).push(want[a + 1]));
            assert(want.take(a + 2) =~= want.take(a).push(want[a]).push(want[a + 1]));
        }
        i = i + 1;
    }
    assert(want.take((2 * siblings@.len() + 2) as int) =~= want);
    r
}

/// The first candidate that exists (`exists[i]` for candidate `i`), if any.
pub fn choose_nav(candidates: &Vec<String>, exists: &Vec<bool>) -> (r: Option<String>)
    requires
        exists@.len() == candidates@.len(),
    ensures
        match first_set(exists@) {
            Some(i) => r matches Some(p) && p@ == candidates@[i]@,
            None => r is None,
        },
{
    let mut i: usize = 0;
    assert(exists@.skip(0) =~= exists@);
    while i < exists.len()
        invariant
            exists@.len() == candidates@.len(),
            i <= exists@.len(),
            first_set(exists@) == match first_set(exists@.skip(i as int)) {
                Some(j) => Some(j + i),
                None => None,
            },
        decreases exists@.len() - i,
    {
        if exists[i] {
            let p = candidates[i].clone();
            return Some(p);
        }
        assert(exists@.skip(i as int).drop_first() =~= exists@.skip(i + 1));
        i = i + 1;
    }
    None
}

/// Find the map's NAV file: `cstrike/maps/<map>.nav`, then `czero/maps/<map>.nav`
/// under the install, then the same under each sibling install given (which
/// the caller lists from the install's parent directory); the first that
/// exists wins.
pub fn resolve_nav(cs_install_path: &str, map_name: &str, siblings: &Vec<String>) -> (r: Option<String>)
    ensures
        r matches Some(p) ==> nav_candidates(nav_bases(cs_install_path@, siblings@), map_name@).contains(p@),
{
    let candidates = nav_candidate_paths(cs_install_path, map_name, siblings);
    let mut exists: Vec<bool> = Vec::new();
    let mut i: usize = 0;
    while i < candidates.len()
        invariant
            i <= candidates@.len(),
            exists@.len() == i,
        decreases candidates@.len() - i,
    {
        exists.push(path_exists(candidates[i].as_str()));
        i = i + 1;
    }
    let r = choose_nav(&candidates, &exists);
    proof {
        lemma_first_set_in_range(exists@);
        if r is Some {
            let j = first_set(exists@)->0;
            assert(candidates@.map_values(|q: String| q@)[j] == r->0@);
        }
    }
    r
}

proof fn lemma_first_set_in_range(flags: Seq<bool>)
    ensures
        first_set(flags) matches Some(i) ==> 0 <= i < flags.len() && flags[i],
    decreases flags.len(),
{
    if flags.len() > 0 && !flags[0] {
        lemma_first_set_in_range(flags.drop_first());
    }
}

} // verus!
