//! What the editor lists: the leagues, country blocks and divisions in the
//! order shown, the search over them, and the clubs that the team editor
//! offers for a league or a country block (sorted by name in lower case,
//! repeated names shown once, narrowed to those that hold the search text).
use vstd::prelude::*;
use crate::leagues::{CountryModel, Division, DivisionModel, LeagueFile, LeagueModel, World, WorldModel, division_views};
use crate::world_edit::{country_keys, file_name, has_league_for, indices_of, key_indices, league_keys, listed_name, name_of_path, stem_of_path};
use crate::text::{copy_string, from_chars, indexed, keyed_views, law_sorted_by_key, law_sorted_by_key_is_stable, lemma_sorted_by_key_items, text_lt, same_string, sort_by_text_key, sorted_by_key, string_chars, string_views, to_unicode_lowercase, unicode_lowercase};

verus! {

/// Whether `t` occurs in `s` as a run of consecutive characters
/// (`str::contains` with a text pattern).
pub open spec fn has_infix(s: Seq<char>, t: Seq<char>) -> bool {
    exists|i: int| 0 <= i && i + t.len() <= s.len() && #[trigger] s.subrange(i, i + t.len()) == t
}

/// Whether `needle` occurs in `hay` at `at`.
fn occurs_at(hay: &[char], needle: &[char], at: usize) -> (r: bool)
    requires
        at + needle@.len() <= hay@.len(),
    ensures
        r == (hay@.subrange(at as int, at + needle@.len()) == needle@),
{
    let hl = hay.len();
    let mut k: usize = 0;
    while k < needle.len()
        invariant
            hl == hay@.len(),
            k <= needle@.len(),
            at + needle@.len() <= hay@.len(),
            forall|j: int| 0 <= j < k ==> hay@[at + j] == needle@[j],
        decreases needle@.len() - k,
    {
        if hay[at + k] != needle[k] {
            assert(hay@.subrange(at as int, at + needle@.len())[k as int] != needle@[k as int]);
            return false;
        }
        k += 1;
    }
    assert(hay@.subrange(at as int, at + needle@.len()) =~= needle@);
    true
}

/// Whether `needle` occurs in `hay` (see `has_infix`).
pub fn holds_text(hay: &[char], needle: &[char]) -> (r: bool)
    ensures
        r == has_infix(hay@, needle@),
{
    if needle.len() == 0 {
        assert(hay@.subrange(0, 0int + needle@.len()) =~= needle@);
        return true;
    }
    if needle.len() > hay.len() {
        return false;
    }
    let hl = hay.len();
    let last = hl - needle.len();
    let mut at: usize = 0;
    while at <= last
        invariant
            hl == hay@.len(),
            last + needle@.len() == hay@.len(),
            needle@.len() > 0,
            at <= last + 1,
            forall|i: int| 0 <= i < at ==> #[trigger] hay@.subrange(i, i + needle@.len()) != needle@,
        decreases last + 1 - at,
    {
        if occurs_at(hay, needle, at) {
            return true;
        }
        at += 1;
    }
    false
}

/// The clubs of the divisions in order, division after division.
pub open spec fn division_teams(ds: Seq<DivisionModel>) -> Seq<Seq<char>>
    decreases ds.len(),
{
    if ds.len() == 0 {
        seq![]
    } else {
        division_teams(ds.drop_last()) + ds.last().teams
    }
}

/// The clubs the list draws on: those of every division of the league
/// `league`, else those of the country block `country`; `None` where
/// neither names one.
pub open spec fn roster_source(w: WorldModel, league: Option<usize>, country: Option<usize>) -> Option<Seq<Seq<char>>> {
    match league {
        Some(li) if li < w.leagues.len() => Some(division_teams(w.leagues[li as int].divisions)),
        _ => match country {
            Some(ci) if ci < w.international_countries.len() => Some(w.international_countries[ci as int].clubs),
            _ => None,
        },
    }
}

/// The first `n` names keyed by their lower case.
pub open spec fn name_keys(names: Seq<Seq<char>>, n: nat) -> Seq<(Seq<char>, usize)>
    decreases n,
{
    if n == 0 {
        seq![]
    } else {
        name_keys(names, (n - 1) as nat).push((unicode_lowercase(names[n - 1]), (n - 1) as usize))
    }
}

/// The names sorted by their lower case, names with equal keys in their
/// own order (`slice::sort_by_key`, which is stable).
pub open spec fn by_lowercase(names: Seq<Seq<char>>) -> Seq<Seq<char>> {
    sorted_by_key(name_keys(names, names.len())).map_values(|e: (Seq<char>, usize)| names[e.1 as int])
}

/// `s` with each run of equal neighbours kept once (`Vec::dedup`).
pub open spec fn without_repeats(s: Seq<Seq<char>>) -> Seq<Seq<char>>
    decreases s.len(),
{
    if s.len() <= 1 {
        s
    } else if s.last() == s[s.len() - 2] {
        without_repeats(s.drop_last())
    } else {
        without_repeats(s.drop_last()).push(s.last())
    }
}

/// The names whose lower case holds `query`.
pub open spec fn matching(s: Seq<Seq<char>>, query: Seq<char>) -> Seq<Seq<char>>
    decreases s.len(),
{
    if s.len() == 0 {
        seq![]
    } else if has_infix(unicode_lowercase(s.last()), query) {
        matching(s.drop_last(), query).push(s.last())
    } else {
        matching(s.drop_last(), query)
    }
}

/// The clubs that the team list shows for the league `league` (else the
/// country block `country`) and the search text `query`: sorted by lower
/// case, repeated names once, those whose lower case holds the lower case
/// of `query`. `None` where neither a league nor a block is named.
pub open spec fn team_list(w: WorldModel, league: Option<usize>, country: Option<usize>, query: Seq<char>) -> Option<Seq<Seq<char>>> {
    match roster_source(w, league, country) {
        Some(names) => Some(matching(without_repeats(by_lowercase(names)), unicode_lowercase(query))),
        None => None,
    }
}

/// The clubs of the divisions, division after division.
fn gather_teams(divisions: &Vec<Division>) -> (r: Vec<String>)
    ensures
        string_views(r@) == division_teams(division_views(divisions@)),
{
    let ghost dv = division_views(divisions@);
    let mut r: Vec<String> = Vec::new();
    let mut d: usize = 0;
    assert(dv.take(0).len() == 0);
    assert(string_views(r@) =~= division_teams(dv.take(0)));
    while d < divisions.len()
        invariant
            d <= divisions@.len(),
            dv == division_views(divisions@),
            string_views(r@) == division_teams(dv.take(d as int)),
        decreases divisions@.len() - d,
    {
        let teams = &divisions[d].teams;
        assert(dv[d as int].teams == string_views(teams@));
        let ghost before = string_views(r@);
        let mut k: usize = 0;
        while k < teams.len()
            invariant
                k <= teams@.len(),
                string_views(r@) == before + string_views(teams@).take(k as int),
            decreases teams@.len() - k,
        {
            let ghost old_r = string_views(r@);
            r.push(copy_string(&teams[k]));
            assert(string_views(r@) =~= old_r.push(teams@[k as int]@));
            assert(string_views(teams@).take(k + 1) =~= string_views(teams@).take(k as int).push(teams@[k as int]@));
            k += 1;
            assert(string_views(r@) =~= before + string_views(teams@).take(k as int));
        }
        assert(string_views(teams@).take(k as int) =~= string_views(teams@));
        assert(dv.take(d + 1).drop_last() =~= dv.take(d as int));
        assert(dv.take(d + 1).last() == dv[d as int]);
        d += 1;
    }
    assert(dv.take(d as int) =~= dv);
    r
}

proof fn lemma_name_keys(names: Seq<Seq<char>>, n: nat)
    requires
        n <= names.len(),
    ensures
        name_keys(names, n).len() == n,
        forall|i: int| 0 <= i < n ==> #[trigger] name_keys(names, n)[i] == (unicode_lowercase(names[i]), i as usize),
    decreases n,
{
    if n > 0 {
        lemma_name_keys(names, (n - 1) as nat);
    }
}

/// The names sorted by lower case (see `by_lowercase`).
pub fn sorted_by_lowercase(names: &Vec<String>) -> (r: Vec<String>)
    ensures
        string_views(r@) == by_lowercase(string_views(names@)),
{
    let ghost nv = string_views(names@);
    let mut keyed: Vec<(Vec<char>, usize)> = Vec::new();
    let mut i: usize = 0;
    assert(keyed_views(keyed@) =~= name_keys(nv, 0));
    while i < names.len()
        invariant
            i <= names@.len(),
            nv == string_views(names@),
            keyed_views(keyed@) == name_keys(nv, i as nat),
        decreases names@.len() - i,
    {
        let low = to_unicode_lowercase(names[i].as_str());
        let ghost before = keyed_views(keyed@);
        keyed.push((string_chars(&low), i));
        assert(keyed_views(keyed@) =~= before.push((unicode_lowercase(nv[i as int]), i)));
        i += 1;
    }
    let sorted = sort_by_text_key(&keyed);
    let ghost sv = keyed_views(sorted@);
    proof {
        lemma_name_keys(nv, nv.len());
        lemma_sorted_by_key_items(name_keys(nv, nv.len()));
    }
    let mut r: Vec<String> = Vec::new();
    let mut j: usize = 0;
    while j < sorted.len()
        invariant
            j <= sorted@.len(),
            nv == string_views(names@),
            sv == keyed_views(sorted@),
            sv == sorted_by_key(name_keys(nv, nv.len())),
            forall|x: int| 0 <= x < sv.len() ==> name_keys(nv, nv.len()).contains(#[trigger] sv[x]),
            forall|x: int| 0 <= x < nv.len() ==> #[trigger] name_keys(nv, nv.len())[x] == (unicode_lowercase(nv[x]), x as usize),
            name_keys(nv, nv.len()).len() == nv.len(),
            string_views(r@) == by_lowercase(nv).take(j as int),
        decreases sorted@.len() - j,
    {
        let idx = sorted[j].1;
        proof {
            assert(sv[j as int].1 == idx);
            assert(name_keys(nv, nv.len()).contains(sv[j as int]));
            let m = choose|m: int| 0 <= m < name_keys(nv, nv.len()).len() && name_keys(nv, nv.len())[m] == sv[j as int];
            assert(name_keys(nv, nv.len())[m] == (unicode_lowercase(nv[m]), m as usize));
        }
        let ghost old_r = string_views(r@);
        r.push(copy_string(&names[idx]));
        assert(string_views(r@) =~= old_r.push(nv[idx as int]));
        assert(by_lowercase(nv)[j as int] == nv[idx as int]);
        assert(by_lowercase(nv).take(j + 1) =~= by_lowercase(nv).take(j as int).push(nv[idx as int]));
        j += 1;
        assert(string_views(r@) =~= by_lowercase(nv).take(j as int));
    }
    assert(by_lowercase(nv).take(j as int) =~= by_lowercase(nv));
    r
}

/// The names with each run of equal neighbours kept once (see
/// `without_repeats`).
pub fn dedup_names(s: &Vec<String>) -> (r: Vec<String>)
    ensures
        string_views(r@) == without_repeats(string_views(s@)),
{
    let ghost sv = string_views(s@);
    let mut r: Vec<String> = Vec::new();
    let mut i: usize = 0;
    assert(string_views(r@) =~= without_repeats(sv.take(0)));
    while i < s.len()
        invariant
            i <= s@.len(),
            sv == string_views(s@),
            string_views(r@) == without_repeats(sv.take(i as int)),
        decreases s@.len() - i,
    {
        let ghost t = sv.take(i + 1);
        assert(t.drop_last() =~= sv.take(i as int));
        assert(t.last() == sv[i as int]);
        if i == 0 {
            r.push(copy_string(&s[i]));
            assert(string_views(r@) =~= t);
        } else {
            assert(t[t.len() - 2] == sv[i - 1]);
            if same_string(&s[i], &s[i - 1]) {
            } else {
                r.push(copy_string(&s[i]));
                assert(string_views(r@) =~= without_repeats(sv.take(i as int)).push(sv[i as int]));
            }
        }
        i += 1;
    }
    assert(sv.take(i as int) =~= sv);
    r
}

/// The names whose lower case holds `query` (see `matching`).
pub fn matching_names(s: &Vec<String>, query: &Vec<char>) -> (r: Vec<String>)
    ensures
        string_views(r@) == matching(string_views(s@), query@),
{
    let ghost sv = string_views(s@);
    let mut r: Vec<String> = Vec::new();
    let mut i: usize = 0;
    assert(string_views(r@) =~= matching(sv.take(0), query@));
    while i < s.len()
        invariant
            i <= s@.len(),
            sv == string_views(s@),
            string_views(r@) == matching(sv.take(i as int), query@),
        decreases s@.len() - i,
    {
        let ghost t = sv.take(i + 1);
        assert(t.drop_last() =~= sv.take(i as int));
        assert(t.last() == sv[i as int]);
        let low = string_chars(&to_unicode_lowercase(s[i].as_str()));
        if holds_text(low.as_slice(), query.as_slice()) {
            r.push(copy_string(&s[i]));
            assert(string_views(r@) =~= matching(sv.take(i as int), query@).push(sv[i as int]));
        }
        i += 1;
    }
    assert(sv.take(i as int) =~= sv);
    r
}

impl World {
    /// The clubs that the team list shows (see `team_list`).
    pub fn team_list(&self, league: Option<usize>, country: Option<usize>, query: &str) -> (r: Option<Vec<String>>)
        ensures
            match r {
                Some(v) => team_list(self@, league, country, query@) == Some(string_views(v@)),
                None => team_list(self@, league, country, query@) is None,
            },
    {
        let source = match league {
            Some(li) if li < self.leagues.len() => {
                assert(self@.leagues[li as int] == self.leagues@[li as int]@);
                Some(gather_teams(&self.leagues[li].divisions))
            },
            _ => match country {
                Some(ci) if ci < self.international_countries.len() => {
                    assert(self@.international_countries[ci as int] == self.international_countries@[ci as int]@);
                    Some(crate::leagues::copy_strings(&self.international_countries[ci].clubs))
                },
                _ => None,
            },
        };
        match source {
            Some(names) => {
                let q = string_chars(&to_unicode_lowercase(query));
                let sorted = sorted_by_lowercase(&names);
                let once = dedup_names(&sorted);
                Some(matching_names(&once, &q))
            },
            None => None,
        }
    }
}

/// The lower case of the last name of `path`, empty where it has none.
pub open spec fn lowered_file_name(path: Seq<char>) -> Seq<char> {
    match file_name(path) {
        Some(n) => unicode_lowercase(n),
        None => unicode_lowercase(seq![]),
    }
}

/// Whether the league list shows `l` for the search text `query`: its
/// listed name, its country or the name of its file holds `query`, each
/// compared in lower case.
pub open spec fn league_shown(l: LeagueModel, query: Seq<char>) -> bool {
    let q = unicode_lowercase(query);
    ||| has_infix(unicode_lowercase(listed_name(l)), q)
    ||| has_infix(unicode_lowercase(l.country), q)
    ||| has_infix(lowered_file_name(l.path), q)
}

/// Whether the list of countries without a league shows the block `c` for
/// the search text `query`: its country has no league and its name holds
/// `query`, compared in lower case.
pub open spec fn country_shown(w: WorldModel, c: CountryModel, query: Seq<char>) -> bool {
    !has_league_for(w, c.name) && has_infix(unicode_lowercase(c.name), unicode_lowercase(query))
}

/// The first `n` leagues keyed by their country in lower case.
pub open spec fn country_of_league_keys(ls: Seq<LeagueModel>, n: nat) -> Seq<(Seq<char>, usize)>
    decreases n,
{
    if n == 0 {
        seq![]
    } else {
        country_of_league_keys(ls, (n - 1) as nat).push((unicode_lowercase(ls[n - 1].country), (n - 1) as usize))
    }
}

impl World {
    /// Whether the league list shows the league at `index` for `query` (see
    /// `league_shown`).
    pub fn league_shown(&self, index: usize, query: &str) -> (r: bool)
        requires
            index < self@.leagues.len(),
        ensures
            r == league_shown(self@.leagues[index as int], query@),
    {
        let l = &self.leagues[index];
        assert(self@.leagues[index as int] == l@);
        let q = string_chars(&to_unicode_lowercase(query));
        let p = string_chars(&l.path);
        let name = match stem_of_path(p.as_slice()) {
            Some(st) => st,
            None => string_chars(&l.country),
        };
        let by_name = string_chars(&to_unicode_lowercase(from_chars(name.as_slice()).as_str()));
        if holds_text(by_name.as_slice(), q.as_slice()) {
            return true;
        }
        let by_country = string_chars(&to_unicode_lowercase(l.country.as_str()));
        if holds_text(by_country.as_slice(), q.as_slice()) {
            return true;
        }
        let file = match name_of_path(p.as_slice()) {
            Some(n) => n,
            None => Vec::new(),
        };
        assert(file@ == (match file_name(l@.path) { Some(n) => n, None => seq![] }));
        let by_file = string_chars(&to_unicode_lowercase(from_chars(file.as_slice()).as_str()));
        holds_text(by_file.as_slice(), q.as_slice())
    }

    /// Whether the list of countries without a league shows the block at
    /// `index` for `query` (see `country_shown`).
    pub fn country_shown(&self, index: usize, query: &str) -> (r: bool)
        requires
            index < self@.international_countries.len(),
        ensures
            r == country_shown(self@, self@.international_countries[index as int], query@),
    {
        let c = &self.international_countries[index];
        assert(self@.international_countries[index as int] == c@);
        if self.has_league_for(c.name.as_str()) {
            return false;
        }
        let q = string_chars(&to_unicode_lowercase(query));
        let by_name = string_chars(&to_unicode_lowercase(c.name.as_str()));
        holds_text(by_name.as_slice(), q.as_slice())
    }

    /// The leagues by country in lower case, leagues of the same key in
    /// their own order: the order of the team editor's league list.
    pub fn leagues_by_country(&self) -> (r: Vec<usize>)
        ensures
            r@ == key_indices(sorted_by_key(country_of_league_keys(self@.leagues, self@.leagues.len()))),
    {
        let ghost lv = self@.leagues;
        let mut keyed: Vec<(Vec<char>, usize)> = Vec::new();
        let mut i: usize = 0;
        assert(keyed_views(keyed@) =~= country_of_league_keys(lv, 0));
        while i < self.leagues.len()
            invariant
                i <= self.leagues@.len(),
                lv == self@.leagues,
                keyed_views(keyed@) == country_of_league_keys(lv, i as nat),
            decreases self.leagues@.len() - i,
        {
            let l = &self.leagues[i];
            assert(lv[i as int] == l@);
            let low = to_unicode_lowercase(l.country.as_str());
            let ghost before = keyed_views(keyed@);
            keyed.push((string_chars(&low), i));
            assert(keyed_views(keyed@) =~= before.push((unicode_lowercase(lv[i as int].country), i)));
            i += 1;
        }
        indices_of(&sort_by_text_key(&keyed))
    }
}

impl LeagueFile {
    /// The name under which the league is listed and its flag is found: the
    /// stem of its file, or its country when the path has none.
    pub fn identity(&self) -> (r: String)
        ensures
            r@ == listed_name(self@),
    {
        let p = string_chars(&self.path);
        match stem_of_path(p.as_slice()) {
            Some(st) => from_chars(st.as_slice()),
            None => copy_string(&self.country),
        }
    }
}

/// The place of a level in the order of `Option<u32>`: no level first, then
/// by value.
pub open spec fn level_rank(level: Option<u32>) -> int {
    match level {
        None => 0,
        Some(v) => v + 1,
    }
}

/// `s` with `x` put before the first item of higher rank: one step of a
/// stable sort by rank.
pub open spec fn insert_by_rank(s: Seq<(int, usize)>, x: (int, usize)) -> Seq<(int, usize)>
    decreases s.len(),
{
    if s.len() == 0 {
        seq![x]
    } else if x.0 < s[0].0 {
        seq![x] + s
    } else {
        seq![s[0]] + insert_by_rank(s.drop_first(), x)
    }
}

/// The items in the order of their ranks, items of equal rank in their
/// first order (`slice::sort_by_key`, which is stable).
pub open spec fn sorted_by_rank(s: Seq<(int, usize)>) -> Seq<(int, usize)>
    decreases s.len(),
{
    if s.len() == 0 {
        seq![]
    } else {
        insert_by_rank(sorted_by_rank(s.drop_last()), s.last())
    }
}

/// The first `n` divisions keyed by the rank of their level.
pub open spec fn level_keys(ds: Seq<DivisionModel>, n: nat) -> Seq<(int, usize)>
    decreases n,
{
    if n == 0 {
        seq![]
    } else {
        level_keys(ds, (n - 1) as nat).push((level_rank(ds[n - 1].level), (n - 1) as usize))
    }
}

/// The indices of ranked items, in order.
pub open spec fn rank_indices(s: Seq<(int, usize)>) -> Seq<usize> {
    s.map_values(|e: (int, usize)| e.1)
}

/// The views of ranked items.
pub open spec fn rank_views(v: Seq<(u64, usize)>) -> Seq<(int, usize)> {
    v.map_values(|e: (u64, usize)| (e.0 as int, e.1))
}

proof fn lemma_insert_by_rank_at(s: Seq<(int, usize)>, x: (int, usize), j: int)
    requires
        0 <= j <= s.len(),
        forall|i: int| 0 <= i < j ==> !(x.0 < #[trigger] s[i].0),
        j < s.len() ==> x.0 < s[j].0,
    ensures
        insert_by_rank(s, x) == s.take(j) + seq![x] + s.skip(j),
    decreases j,
{
    if j > 0 {
        assert forall|i: int| 0 <= i < j - 1 implies !(x.0 < #[trigger] s.drop_first()[i].0) by {
            assert(s.drop_first()[i] == s[i + 1]);
        }
        if j < s.len() {
            assert(s.drop_first()[j - 1] == s[j]);
        }
        lemma_insert_by_rank_at(s.drop_first(), x, j - 1);
        assert(s.drop_first().take(j - 1) =~= s.take(j).drop_first());
        assert(s.drop_first().skip(j - 1) =~= s.skip(j));
        assert(insert_by_rank(s, x) =~= s.take(j) + seq![x] + s.skip(j));
    } else {
        assert(s.take(0) + seq![x] + s.skip(0) =~= if s.len() == 0 {
            seq![x]
        } else {
            seq![x] + s
        });
    }
}

impl LeagueFile {
    /// The divisions in the order of their levels, divisions without a
    /// level first and divisions of the same level in their own order.
    pub fn divisions_by_level(&self) -> (r: Vec<usize>)
        ensures
            r@ == rank_indices(sorted_by_rank(level_keys(self@.divisions, self@.divisions.len()))),
    {
        let ghost dv = self@.divisions;
        let ghost iv = level_keys(dv, dv.len());
        let mut out: Vec<(u64, usize)> = Vec::new();
        assert(rank_views(out@) =~= sorted_by_rank(level_keys(dv, 0)));
        let mut n: usize = 0;
        while n < self.divisions.len()
            invariant
                n <= self.divisions@.len(),
                dv == self@.divisions,
                rank_views(out@) == sorted_by_rank(level_keys(dv, n as nat)),
            decreases self.divisions@.len() - n,
        {
            assert(dv[n as int] == self.divisions@[n as int]@);
            let rank: u64 = match self.divisions[n].level {
                None => 0,
                Some(v) => v as u64 + 1,
            };
            let ghost s = rank_views(out@);
            let ghost xv = (rank as int, n);
            assert(xv == (level_rank(dv[n as int].level), n));
            let mut j: usize = 0;
            while j < out.len() && !(rank < out[j].0)
                invariant
                    j <= out@.len(),
                    s == rank_views(out@),
                    xv == (rank as int, n),
                    forall|i: int| 0 <= i < j ==> !(xv.0 < #[trigger] s[i].0),
                decreases out@.len() - j,
            {
                j += 1;
            }
            proof {
                lemma_insert_by_rank_at(s, xv, j as int);
                let k = level_keys(dv, (n + 1) as nat);
                assert(k.drop_last() =~= level_keys(dv, n as nat));
                assert(k.last() == xv);
            }
            out.insert(j, (rank, n));
            assert(rank_views(out@) =~= s.take(j as int) + seq![xv] + s.skip(j as int));
            n += 1;
        }
        let mut r: Vec<usize> = Vec::new();
        let mut i: usize = 0;
        while i < out.len()
            invariant
                i <= out@.len(),
                r@ == rank_indices(rank_views(out@)).take(i as int),
            decreases out@.len() - i,
        {
            r.push(out[i].1);
            i += 1;
            assert(r@ =~= rank_indices(rank_views(out@)).take(i as int));
        }
        assert(rank_indices(rank_views(out@)).take(i as int) =~= rank_indices(rank_views(out@)));
        r
    }
}

// ---------------------------------------------------------------------------
// Laws of the lists
// ---------------------------------------------------------------------------

/// Sorting items that carry their positions lists every position once, in
/// the order of the keys.
proof fn lemma_sorted_positions(s: Seq<(Seq<char>, usize)>)
    requires
        indexed(s),
        s.len() <= usize::MAX + 1,
    ensures
        forall|i: int, j: int| 0 <= i < j < s.len() && s[#[trigger] key_indices(sorted_by_key(s))[i] as int].0
            == s[#[trigger] key_indices(sorted_by_key(s))[j] as int].0 ==> key_indices(sorted_by_key(s))[i]
            < key_indices(sorted_by_key(s))[j],
        key_indices(sorted_by_key(s)).len() == s.len(),
        key_indices(sorted_by_key(s)).no_duplicates(),
        forall|k: usize| k < s.len() ==> #[trigger] key_indices(sorted_by_key(s)).contains(k),
        forall|i: int| 0 <= i < s.len() ==> (#[trigger] key_indices(sorted_by_key(s))[i]) < s.len(),
        forall|i: int, j: int| 0 <= i < j < s.len() ==> !text_lt(
            #[trigger] s[key_indices(sorted_by_key(s))[j] as int].0,
            #[trigger] s[key_indices(sorted_by_key(s))[i] as int].0,
        ),
{
    broadcast use vstd::seq_lib::group_to_multiset_ensures;
    broadcast use vstd::multiset::group_multiset_axioms;
    let t = sorted_by_key(s);
    let o = key_indices(t);
    law_sorted_by_key(s);
    assert(s.no_duplicates()) by {
        assert forall|i: int, j: int| 0 <= i < s.len() && 0 <= j < s.len() && i != j implies s[i] != s[j] by {
            assert(s[i].1 == i && s[j].1 == j);
        }
    }
    s.lemma_multiset_has_no_duplicates();
    t.lemma_multiset_has_no_duplicates_conv();
    assert(t.len() == s.len()) by {
        vstd::seq_lib::to_multiset_len(t);
        vstd::seq_lib::to_multiset_len(s);
    }
    assert forall|p: int| 0 <= p < t.len() implies #[trigger] t[p] == s[t[p].1 as int] && t[p].1 < s.len() by {
        vstd::seq_lib::to_multiset_contains(t, t[p]);
        vstd::seq_lib::to_multiset_contains(s, t[p]);
        assert(t.contains(t[p]));
        let m = choose|m: int| 0 <= m < s.len() && s[m] == t[p];
        assert(s[m].1 == m);
    }
    assert forall|i: int| 0 <= i < s.len() implies (#[trigger] o[i]) < s.len() by {
        assert(t[i] == s[t[i].1 as int]);
    }
    assert forall|i: int, j: int| 0 <= i < o.len() && 0 <= j < o.len() && i != j implies o[i] != o[j] by {
        assert(t[i] == s[t[i].1 as int]);
        assert(t[j] == s[t[j].1 as int]);
    }
    assert forall|k: usize| k < s.len() implies #[trigger] o.contains(k) by {
        vstd::seq_lib::to_multiset_contains(s, s[k as int]);
        vstd::seq_lib::to_multiset_contains(t, s[k as int]);
        assert(s.contains(s[k as int]));
        let p = choose|p: int| 0 <= p < t.len() && t[p] == s[k as int];
        assert(s[k as int].1 == k);
        assert(o[p] == k);
    }
    assert forall|i: int, j: int| 0 <= i < j < s.len() implies !text_lt(
        #[trigger] s[o[j] as int].0,
        #[trigger] s[o[i] as int].0,
    ) by {
        assert(t[i] == s[t[i].1 as int]);
        assert(t[j] == s[t[j].1 as int]);
        assert(!text_lt(t[j].0, t[i].0));
    }
    law_sorted_by_key_is_stable(s);
    assert forall|i: int, j: int| 0 <= i < j < s.len() && s[#[trigger] o[i] as int].0 == s[#[trigger] o[j] as int].0
        implies o[i] < o[j] by {
        assert(t[i] == s[t[i].1 as int]);
        assert(t[j] == s[t[j].1 as int]);
    }
}

proof fn lemma_league_keys(ls: Seq<LeagueModel>, n: nat)
    requires
        n <= ls.len(),
        n <= usize::MAX + 1,
    ensures
        league_keys(ls, n).len() == n,
        forall|i: int| 0 <= i < n ==> #[trigger] league_keys(ls, n)[i] == (unicode_lowercase(listed_name(ls[i])), i as usize),
    decreases n,
{
    if n > 0 {
        lemma_league_keys(ls, (n - 1) as nat);
    }
}

proof fn lemma_country_keys(cs: Seq<CountryModel>, n: nat)
    requires
        n <= cs.len(),
        n <= usize::MAX + 1,
    ensures
        country_keys(cs, n).len() == n,
        forall|i: int| 0 <= i < n ==> #[trigger] country_keys(cs, n)[i] == (unicode_lowercase(cs[i].name), i as usize),
    decreases n,
{
    if n > 0 {
        lemma_country_keys(cs, (n - 1) as nat);
    }
}

/// The league list (`World::league_order`) shows every league once, by
/// listed name in lower case: no name comes before the one ahead of it, and
/// leagues of the same name keep their own order.
pub proof fn law_league_list(ls: Seq<LeagueModel>)
    requires
        ls.len() <= usize::MAX + 1,
    ensures
        ({
            let o = key_indices(sorted_by_key(league_keys(ls, ls.len())));
            &&& o.len() == ls.len()
            &&& o.no_duplicates()
            &&& forall|k: usize| k < ls.len() ==> #[trigger] o.contains(k)
            &&& forall|i: int, j: int| 0 <= i < j < ls.len() ==> !text_lt(
                unicode_lowercase(listed_name(ls[#[trigger] o[j] as int])),
                unicode_lowercase(listed_name(ls[#[trigger] o[i] as int])),
            )
            &&& forall|i: int, j: int| 0 <= i < j < ls.len() && unicode_lowercase(listed_name(ls[#[trigger] o[i] as int]))
                == unicode_lowercase(listed_name(ls[#[trigger] o[j] as int])) ==> o[i] < o[j]
        }),
{
    let s = league_keys(ls, ls.len());
    lemma_league_keys(ls, ls.len());
    lemma_sorted_positions(s);
    let o = key_indices(sorted_by_key(s));
    assert forall|i: int, j: int| 0 <= i < j < ls.len() implies !text_lt(
        unicode_lowercase(listed_name(ls[#[trigger] o[j] as int])),
        unicode_lowercase(listed_name(ls[#[trigger] o[i] as int])),
    ) by {
        assert(!text_lt(s[o[j] as int].0, s[o[i] as int].0));
        assert(o[i] < ls.len() && o[j] < ls.len());
    }
    assert forall|i: int, j: int| 0 <= i < j < ls.len() && unicode_lowercase(listed_name(ls[#[trigger] o[i] as int]))
        == unicode_lowercase(listed_name(ls[#[trigger] o[j] as int])) implies o[i] < o[j] by {
        assert(o[i] < ls.len() && o[j] < ls.len());
        assert(s[o[i] as int].0 == s[o[j] as int].0);
    }
}

/// The list of country blocks (`World::country_order`) shows every block
/// once, by name in lower case: no name comes before the one ahead of it,
/// and blocks of the same name keep their own order.
pub proof fn law_country_list(cs: Seq<CountryModel>)
    requires
        cs.len() <= usize::MAX + 1,
    ensures
        ({
            let o = key_indices(sorted_by_key(country_keys(cs, cs.len())));
            &&& o.len() == cs.len()
            &&& o.no_duplicates()
            &&& forall|k: usize| k < cs.len() ==> #[trigger] o.contains(k)
            &&& forall|i: int, j: int| 0 <= i < j < cs.len() ==> !text_lt(
                unicode_lowercase(cs[#[trigger] o[j] as int].name),
                unicode_lowercase(cs[#[trigger] o[i] as int].name),
            )
            &&& forall|i: int, j: int| 0 <= i < j < cs.len() && unicode_lowercase(cs[#[trigger] o[i] as int].name)
                == unicode_lowercase(cs[#[trigger] o[j] as int].name) ==> o[i] < o[j]
        }),
{
    let s = country_keys(cs, cs.len());
    lemma_country_keys(cs, cs.len());
    lemma_sorted_positions(s);
    let o = key_indices(sorted_by_key(s));
    assert forall|i: int, j: int| 0 <= i < j < cs.len() implies !text_lt(
        unicode_lowercase(cs[#[trigger] o[j] as int].name),
        unicode_lowercase(cs[#[trigger] o[i] as int].name),
    ) by {
        assert(!text_lt(s[o[j] as int].0, s[o[i] as int].0));
        assert(o[i] < cs.len() && o[j] < cs.len());
    }
    assert forall|i: int, j: int| 0 <= i < j < cs.len() && unicode_lowercase(cs[#[trigger] o[i] as int].name)
        == unicode_lowercase(cs[#[trigger] o[j] as int].name) implies o[i] < o[j] by {
        assert(o[i] < cs.len() && o[j] < cs.len());
        assert(s[o[i] as int].0 == s[o[j] as int].0);
    }
}

proof fn lemma_insert_by_rank_items(s: Seq<(int, usize)>, x: (int, usize))
    ensures
        forall|i: int| 0 <= i < insert_by_rank(s, x).len() ==> #[trigger] insert_by_rank(s, x)[i] == x || s.contains(
            insert_by_rank(s, x)[i],
        ),
    decreases s.len(),
{
    if s.len() > 0 {
        lemma_insert_by_rank_items(s.drop_first(), x);
        let r = insert_by_rank(s, x);
        assert forall|i: int| 0 <= i < r.len() implies #[trigger] r[i] == x || s.contains(r[i]) by {
            if x.0 < s[0].0 {
                if i > 0 {
                    assert(r[i] == s[i - 1]);
                }
            } else if i > 0 {
                let t = insert_by_rank(s.drop_first(), x);
                assert(r[i] == t[i - 1]);
                if t[i - 1] != x {
                    let k = choose|k: int| 0 <= k < s.drop_first().len() && s.drop_first()[k] == t[i - 1];
                    assert(s[k + 1] == r[i]);
                }
            } else {
                assert(r[0] == s[0]);
            }
        }
    }
}

proof fn lemma_empty_ranks(s: Seq<(int, usize)>)
    requires
        s.len() == 0,
    ensures
        s.to_multiset() =~= vstd::multiset::Multiset::empty(),
{
    vstd::seq_lib::to_multiset_len(s);
    vstd::multiset::lemma_multiset_empty_len(s.to_multiset());
}

proof fn lemma_insert_by_rank_in_order(t: Seq<(int, usize)>, x: (int, usize))
    requires
        forall|i: int, j: int| 0 <= i < j < t.len() ==> (#[trigger] t[i]).0 <= (#[trigger] t[j]).0,
    ensures
        forall|i: int, j: int| 0 <= i < j < insert_by_rank(t, x).len() ==> (#[trigger] insert_by_rank(t, x)[i]).0
            <= (#[trigger] insert_by_rank(t, x)[j]).0,
        insert_by_rank(t, x).to_multiset() =~= t.to_multiset().insert(x),
    decreases t.len(),
{
    broadcast use vstd::multiset::group_multiset_axioms;
    let r = insert_by_rank(t, x);
    let e = Seq::<(int, usize)>::empty();
    if t.len() == 0 {
        vstd::seq_lib::to_multiset_build(e, x);
        assert(seq![x] =~= e.push(x));
        lemma_empty_ranks(t);
        lemma_empty_ranks(e);
    } else if x.0 < t[0].0 {
        assert forall|i: int, j: int| 0 <= i < j < r.len() implies (#[trigger] r[i]).0 <= (#[trigger] r[j]).0 by {
            assert(r[j] == t[j - 1]);
            if i > 0 {
                assert(r[i] == t[i - 1]);
            } else if j - 1 > 0 {
                assert(t[0].0 <= t[j - 1].0);
            }
        }
        vstd::seq_lib::lemma_multiset_commutative(seq![x], t);
        vstd::seq_lib::to_multiset_build(e, x);
        assert(seq![x] =~= e.push(x));
        lemma_empty_ranks(e);
    } else {
        let rest = t.drop_first();
        assert forall|i: int, j: int| 0 <= i < j < rest.len() implies (#[trigger] rest[i]).0 <= (#[trigger] rest[j]).0 by {
            assert(rest[i] == t[i + 1] && rest[j] == t[j + 1]);
        }
        lemma_insert_by_rank_in_order(rest, x);
        lemma_insert_by_rank_items(rest, x);
        let inner = insert_by_rank(rest, x);
        assert forall|i: int, j: int| 0 <= i < j < r.len() implies (#[trigger] r[i]).0 <= (#[trigger] r[j]).0 by {
            assert(r[j] == inner[j - 1]);
            if i == 0 {
                assert(r[0] == t[0]);
                if inner[j - 1] != x {
                    let k = choose|k: int| 0 <= k < rest.len() && rest[k] == inner[j - 1];
                    assert(t[k + 1] == r[j]);
                }
            } else {
                assert(r[i] == inner[i - 1]);
            }
        }
        vstd::seq_lib::lemma_multiset_commutative(seq![t[0]], inner);
        vstd::seq_lib::lemma_multiset_commutative(seq![t[0]], rest);
        assert(seq![t[0]] + rest =~= t);
    }
}

/// Sorting by rank puts the ranks in order and keeps every item of `s`,
/// each as often as it occurs there.
pub proof fn law_sorted_by_rank(s: Seq<(int, usize)>)
    ensures
        forall|i: int, j: int| 0 <= i < j < sorted_by_rank(s).len() ==> (#[trigger] sorted_by_rank(s)[i]).0
            <= (#[trigger] sorted_by_rank(s)[j]).0,
        sorted_by_rank(s).to_multiset() == s.to_multiset(),
    decreases s.len(),
{
    if s.len() == 0 {
        lemma_empty_ranks(s);
        lemma_empty_ranks(sorted_by_rank(s));
    } else {
        law_sorted_by_rank(s.drop_last());
        lemma_insert_by_rank_in_order(sorted_by_rank(s.drop_last()), s.last());
        vstd::seq_lib::to_multiset_build(s.drop_last(), s.last());
        assert(s.drop_last().push(s.last()) =~= s);
    }
}

proof fn lemma_level_keys(ds: Seq<DivisionModel>, n: nat)
    requires
        n <= ds.len(),
        n <= usize::MAX + 1,
    ensures
        level_keys(ds, n).len() == n,
        forall|i: int| 0 <= i < n ==> #[trigger] level_keys(ds, n)[i] == (level_rank(ds[i].level), i as usize),
    decreases n,
{
    if n > 0 {
        lemma_level_keys(ds, (n - 1) as nat);
    }
}

/// The division list (`LeagueFile::divisions_by_level`) shows every
/// division once, by level: divisions without a level first, then no level
/// below the one ahead of it.
pub proof fn law_division_list(ds: Seq<DivisionModel>)
    requires
        ds.len() <= usize::MAX + 1,
    ensures
        ({
            let o = rank_indices(sorted_by_rank(level_keys(ds, ds.len())));
            &&& o.len() == ds.len()
            &&& o.no_duplicates()
            &&& forall|k: usize| k < ds.len() ==> #[trigger] o.contains(k)
            &&& forall|i: int, j: int| 0 <= i < j < ds.len() ==> level_rank(ds[#[trigger] o[i] as int].level)
                <= level_rank(ds[#[trigger] o[j] as int].level)
        }),
{
    broadcast use vstd::seq_lib::group_to_multiset_ensures;
    broadcast use vstd::multiset::group_multiset_axioms;
    let s = level_keys(ds, ds.len());
    lemma_level_keys(ds, ds.len());
    let t = sorted_by_rank(s);
    let o = rank_indices(t);
    law_sorted_by_rank(s);
    assert(s.no_duplicates()) by {
        assert forall|i: int, j: int| 0 <= i < s.len() && 0 <= j < s.len() && i != j implies s[i] != s[j] by {
            assert(s[i].1 == i && s[j].1 == j);
        }
    }
    s.lemma_multiset_has_no_duplicates();
    t.lemma_multiset_has_no_duplicates_conv();
    assert(t.len() == s.len()) by {
        vstd::seq_lib::to_multiset_len(t);
        vstd::seq_lib::to_multiset_len(s);
    }
    assert forall|p: int| 0 <= p < t.len() implies #[trigger] t[p] == s[t[p].1 as int] && t[p].1 < s.len() by {
        vstd::seq_lib::to_multiset_contains(t, t[p]);
        vstd::seq_lib::to_multiset_contains(s, t[p]);
        assert(t.contains(t[p]));
        let m = choose|m: int| 0 <= m < s.len() && s[m] == t[p];
        assert(s[m].1 == m);
    }
    assert forall|i: int, j: int| 0 <= i < o.len() && 0 <= j < o.len() && i != j implies o[i] != o[j] by {
        assert(t[i] == s[t[i].1 as int]);
        assert(t[j] == s[t[j].1 as int]);
    }
    assert forall|k: usize| k < ds.len() implies #[trigger] o.contains(k) by {
        vstd::seq_lib::to_multiset_contains(s, s[k as int]);
        vstd::seq_lib::to_multiset_contains(t, s[k as int]);
        assert(s.contains(s[k as int]));
        let p = choose|p: int| 0 <= p < t.len() && t[p] == s[k as int];
        assert(o[p] == k);
    }
    assert forall|i: int, j: int| 0 <= i < j < ds.len() implies level_rank(ds[#[trigger] o[i] as int].level)
        <= level_rank(ds[#[trigger] o[j] as int].level) by {
        assert(t[i] == s[t[i].1 as int]);
        assert(t[j] == s[t[j].1 as int]);
        assert(t[i].0 <= t[j].0);
    }
}

} // verus!
