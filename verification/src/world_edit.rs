//! Changes to the structure of a world: new leagues and divisions, clubs
//! added to a division, the international list kept in step with the first
//! division, and the removal of divisions and leagues.
use vstd::prelude::*;
use crate::world_load::{has_text_extension, is_text_file};
use crate::leagues::{CountryModel, Division, DivisionModel, InternationalCountry, LeagueFile, LeagueModel, World, WorldModel, club_at, copy_strings, country_views, division_views, first_with_level, league_views, lemma_count_without_first, level_census, level_count, literal};
use crate::text::{blank, char_is_control, char_views, chars_are, contains_char, copy_chars, copy_string, decimal, eq_ignore_case, first_in, from_chars, is_blank, is_control, keyed_views, lemma_sorted_by_key_items, list_holds, lower, push_all, push_decimal, push_str, same_chars, same_ignoring_case, sort_by_text_key, sorted_by_key, split_char, split_on, starts_with_any, string_chars, string_views, sub_chars, to_chars, to_unicode_lowercase, trim, trimmed, unicode_lowercase, upper, uppered};

verus! {

// ---------------------------------------------------------------------------
// File names and new divisions
// ---------------------------------------------------------------------------

/// The characters that a Windows file name cannot hold.
pub open spec fn forbidden_chars() -> Seq<char> {
    seq!['<', '>', ':', '"', '/', '\\', '|', '?', '*']
}

/// Whether `c` cannot stand in a file name.
pub open spec fn forbidden_in_name(c: char) -> bool {
    is_control(c) || forbidden_chars().contains(c)
}

/// Whether `n` is empty, has whitespace at an end, ends with a dot or holds
/// a character that a file name cannot hold.
pub open spec fn malformed_file_name(n: Seq<char>) -> bool {
    ||| n.len() == 0
    ||| trim(n) != n
    ||| n.last() == '.'
    ||| exists|i: int| 0 <= i < n.len() && forbidden_in_name(#[trigger] n[i])
}

/// The device names that Windows reserves.
pub open spec fn is_reserved_name(u: Seq<char>) -> bool {
    ||| u == "CON"@
    ||| u == "PRN"@
    ||| u == "AUX"@
    ||| u == "NUL"@
    ||| u == "COM1"@
    ||| u == "COM2"@
    ||| u == "COM3"@
    ||| u == "COM4"@
    ||| u == "COM5"@
    ||| u == "COM6"@
    ||| u == "COM7"@
    ||| u == "COM8"@
    ||| u == "COM9"@
    ||| u == "LPT1"@
    ||| u == "LPT2"@
    ||| u == "LPT3"@
    ||| u == "LPT4"@
    ||| u == "LPT5"@
    ||| u == "LPT6"@
    ||| u == "LPT7"@
    ||| u == "LPT8"@
    ||| u == "LPT9"@
}

/// Whether `n` can be the name of a file on Windows, with the message of
/// the first reason why not.
pub open spec fn file_name_check(n: Seq<char>) -> Result<(), Seq<char>> {
    if malformed_file_name(n) {
        Err("Nome non valido per un file: "@ + n)
    } else if is_reserved_name(upper(split_on(n, '.')[0])) {
        Err("Nome riservato da Windows."@)
    } else {
        Ok(())
    }
}

/// The plain-value form of an outcome without a value.
pub open spec fn outcome(r: Result<(), String>) -> Result<(), Seq<char>> {
    match r {
        Ok(()) => Ok(()),
        Err(e) => Err(e@),
    }
}

fn forbidden_char(c: char) -> (r: bool)
    ensures
        r == forbidden_in_name(c),
{
    let set = ['<', '>', ':', '"', '/', '\\', '|', '?', '*'];
    assert(forbidden_chars() =~= set@);
    char_is_control(c) || contains_char(&set, c)
}

fn reserved_name(u: &[char]) -> (r: bool)
    ensures
        r == is_reserved_name(u@),
{
    chars_are(u, "CON") || chars_are(u, "PRN") || chars_are(u, "AUX") || chars_are(u, "NUL")
        || chars_are(u, "COM1") || chars_are(u, "COM2") || chars_are(u, "COM3") || chars_are(
        u,
        "COM4",
    ) || chars_are(u, "COM5") || chars_are(u, "COM6") || chars_are(u, "COM7") || chars_are(
        u,
        "COM8",
    ) || chars_are(u, "COM9") || chars_are(u, "LPT1") || chars_are(u, "LPT2") || chars_are(
        u,
        "LPT3",
    ) || chars_are(u, "LPT4") || chars_are(u, "LPT5") || chars_are(u, "LPT6") || chars_are(
        u,
        "LPT7",
    ) || chars_are(u, "LPT8") || chars_are(u, "LPT9")
}

/// Checks that `name` can be a file name on Windows (see `file_name_check`).
pub fn validate_filename(name: &str) -> (r: Result<(), String>)
    ensures
        outcome(r) == file_name_check(name@),
{
    let v = to_chars(name);
    let t = trimmed(v.as_slice());
    let mut bad = v.len() == 0 || !same_chars(t.as_slice(), v.as_slice()) || v[v.len() - 1] == '.';
    let mut i: usize = 0;
    while i < v.len()
        invariant
            i <= v@.len(),
            v@ == name@,
            bad == (v@.len() == 0 || trim(v@) != v@ || v@.last() == '.' || exists|j: int|
                0 <= j < i && forbidden_in_name(#[trigger] v@[j])),
        decreases v@.len() - i,
    {
        if forbidden_char(v[i]) {
            bad = true;
        }
        i += 1;
    }
    if bad {
        let mut m = to_chars("Nome non valido per un file: ");
        push_all(&mut m, v.as_slice());
        return Err(from_chars(m.as_slice()));
    }
    let parts = split_char(v.as_slice(), '.');
    let stem = uppered(parts[0].as_slice());
    assert(parts@[0]@ == char_views(parts@)[0]);
    if reserved_name(stem.as_slice()) {
        return Err(literal("Nome riservato da Windows."));
    }
    Ok(())
}

/// Whether a club name starts with a character of the instruction syntax.
pub open spec fn starts_like_instruction(t: Seq<char>) -> bool {
    starts_with_any(t, seq!['!', '+', ':', '*', '#', ';', '$', '@', '='])
}

/// The check of the first `n` clubs of a new division: each must be a file
/// name, must not look like an instruction and must differ, in Unicode
/// lower case, from the clubs before it.
pub open spec fn clubs_check(teams: Seq<Seq<char>>, n: nat) -> Result<(), Seq<char>>
    decreases n,
{
    if n == 0 {
        Ok(())
    } else {
        match clubs_check(teams, (n - 1) as nat) {
            Err(e) => Err(e),
            Ok(()) => {
                let t = teams[n - 1];
                match file_name_check(t) {
                    Err(e) => Err(e),
                    Ok(()) => if starts_like_instruction(t) || exists|j: int|
                        0 <= j < n - 1 && unicode_lowercase(#[trigger] teams[j]) == unicode_lowercase(t) {
                        Err("Club duplicato o non valido: "@ + t)
                    } else {
                        Ok(())
                    },
                }
            },
        }
    }
}

/// The check of a new division: a name on one line, from 3 to 24 clubs and
/// valid, distinct clubs.
pub open spec fn division_check(name: Seq<char>, teams: Seq<Seq<char>>) -> Result<(), Seq<char>> {
    if is_blank(name) || name.contains('\r') || name.contains('\n') {
        Err("Inserisci il nome della divisione."@)
    } else if !(3 <= teams.len() <= 24) {
        Err("Ogni divisione deve contenere da 3 a 24 club."@)
    } else {
        clubs_check(teams, teams.len())
    }
}

proof fn lemma_clubs_check_stays(teams: Seq<Seq<char>>, a: nat, b: nat)
    requires
        a <= b,
        clubs_check(teams, a) is Err,
    ensures
        clubs_check(teams, b) == clubs_check(teams, a),
    decreases b,
{
    if b > a {
        lemma_clubs_check_stays(teams, a, (b - 1) as nat);
    }
}

/// Checks a new division (see `division_check`).
pub fn validate_division(name: &str, teams: &Vec<String>) -> (r: Result<(), String>)
    ensures
        outcome(r) == division_check(name@, string_views(teams@)),
{
    let v = to_chars(name);
    if blank(v.as_slice()) || contains_char(v.as_slice(), '\r') || contains_char(v.as_slice(), '\n') {
        return Err(literal("Inserisci il nome della divisione."));
    }
    if !(3 <= teams.len() && teams.len() <= 24) {
        return Err(literal("Ogni divisione deve contenere da 3 a 24 club."));
    }
    let ghost tv = string_views(teams@);
    assert(tv.len() == teams@.len());
    assert(division_check(name@, tv) == clubs_check(tv, tv.len()));
    let mut seen: Vec<Vec<char>> = Vec::new();
    let mut i: usize = 0;
    while i < teams.len()
        invariant
            i <= teams@.len(),
            tv == string_views(teams@),
            tv.len() == teams@.len(),
            division_check(name@, tv) == clubs_check(tv, tv.len()),
            clubs_check(tv, i as nat) == Ok::<(), Seq<char>>(()),
            seen@.len() == i,
            forall|j: int| 0 <= j < i ==> #[trigger] seen@[j]@ == unicode_lowercase(tv[j]),
        decreases teams@.len() - i,
    {
        let team = &teams[i];
        assert(tv[i as int] == team@);
        match validate_filename(team.as_str()) {
            Err(e) => {
                proof {
                    assert(clubs_check(tv, (i + 1) as nat) == Err::<(), Seq<char>>(e@));
                    lemma_clubs_check_stays(tv, (i + 1) as nat, tv.len());
                }
                return Err(e);
            },
            Ok(()) => {},
        }
        let chars = string_chars(team);
        let lower = to_chars(to_unicode_lowercase(team.as_str()).as_str());
        let mut dup = false;
        let mut j: usize = 0;
        while j < seen.len()
            invariant
                j <= seen@.len(),
                seen@.len() == i,
                i < tv.len(),
                lower@ == unicode_lowercase(tv[i as int]),
                forall|k: int| 0 <= k < i ==> #[trigger] seen@[k]@ == unicode_lowercase(tv[k]),
                dup == exists|k: int| 0 <= k < j && unicode_lowercase(#[trigger] tv[k]) == unicode_lowercase(tv[i as int]),
            decreases seen@.len() - j,
        {
            if same_chars(seen[j].as_slice(), lower.as_slice()) {
                dup = true;
            }
            j += 1;
        }
        assert(seq!['!', '+', ':', '*', '#', ';', '$', '@', '='] =~= ['!', '+', ':', '*', '#', ';', '$', '@', '=']@);
        if first_in(chars.as_slice(), &['!', '+', ':', '*', '#', ';', '$', '@', '=']) || dup {
            let mut m = to_chars("Club duplicato o non valido: ");
            push_all(&mut m, chars.as_slice());
            proof {
                assert(clubs_check(tv, (i + 1) as nat) == Err::<(), Seq<char>>(m@));
                lemma_clubs_check_stays(tv, (i + 1) as nat, tv.len());
            }
            return Err(from_chars(m.as_slice()));
        }
        seen.push(lower);
        i += 1;
    }
    Ok(())
}


// ---------------------------------------------------------------------------
// Clubs of the world
// ---------------------------------------------------------------------------

/// Whether a division of the league has a club named `club` up to ASCII case.
pub open spec fn league_holds_club(l: LeagueModel, club: Seq<char>) -> bool {
    exists|d: int, t: int|
        0 <= d < l.divisions.len() && 0 <= t < l.divisions[d].teams.len() && eq_ignore_case(
            #[trigger] l.divisions[d].teams[t],
            club,
        )
}

/// Whether a country block lists a club named `club` up to ASCII case.
pub open spec fn countries_hold_club(cs: Seq<CountryModel>, club: Seq<char>) -> bool {
    exists|c: int, k: int|
        0 <= c < cs.len() && 0 <= k < cs[c].clubs.len() && eq_ignore_case(#[trigger] cs[c].clubs[k], club)
}

/// Whether the world still names the club somewhere: in a country block or
/// in a division of a league, up to ASCII case.
pub open spec fn referenced(w: WorldModel, club: Seq<char>) -> bool {
    countries_hold_club(w.international_countries, club) || exists|l: int|
        0 <= l < w.leagues.len() && league_holds_club(#[trigger] w.leagues[l], club)
}

/// The world after releasing the clubs `names`: a club that is to be deleted
/// and that nothing names any more is marked for deletion; every other one
/// is marked as kept.
pub open spec fn released(w: WorldModel, names: Set<Seq<char>>, delete: bool) -> WorldModel {
    WorldModel {
        retained_clubs: Set::new(
            |x: Seq<char>|
                (w.retained_clubs.contains(x) && !names.contains(x)) || (names.contains(x) && !(delete
                    && !referenced(w, x))),
        ),
        deleted_clubs: Set::new(
            |x: Seq<char>|
                (w.deleted_clubs.contains(x) && !names.contains(x)) || (names.contains(x) && (delete
                    && !referenced(w, x))),
        ),
        ..w
    }
}

/// The clubs of every division of a league.
pub open spec fn league_clubs(l: LeagueModel) -> Set<Seq<char>> {
    Set::new(
        |x: Seq<char>|
            exists|d: int, t: int|
                0 <= d < l.divisions.len() && 0 <= t < l.divisions[d].teams.len() && #[trigger] l.divisions[d].teams[t]
                    == x,
    )
}

/// Whether a division of `league` has the club `club` up to ASCII case.
fn league_has_club(league: &LeagueFile, club: &[char]) -> (r: bool)
    ensures
        r == league_holds_club(league@, club@),
{
    let ghost lv = league@;
    let mut d: usize = 0;
    while d < league.divisions.len()
        invariant
            d <= league.divisions@.len(),
            lv == league@,
            forall|a: int, t: int|
                0 <= a < d && 0 <= t < lv.divisions[a].teams.len() ==> !eq_ignore_case(
                    #[trigger] lv.divisions[a].teams[t],
                    club@,
                ),
        decreases league.divisions@.len() - d,
    {
        let teams = &league.divisions[d].teams;
        assert(lv.divisions[d as int] == league.divisions@[d as int]@);
        let mut t: usize = 0;
        while t < teams.len()
            invariant
                t <= teams@.len(),
                d < league.divisions@.len(),
                lv == league@,
                lv.divisions[d as int].teams == string_views(teams@),
                forall|a: int, u: int|
                    0 <= a < d && 0 <= u < lv.divisions[a].teams.len() ==> !eq_ignore_case(
                        #[trigger] lv.divisions[a].teams[u],
                        club@,
                    ),
                forall|u: int| 0 <= u < t ==> !eq_ignore_case(#[trigger] lv.divisions[d as int].teams[u], club@),
            decreases teams@.len() - t,
        {
            let here = string_chars(&teams[t]);
            assert(lv.divisions[d as int].teams[t as int] == teams@[t as int]@);
            if same_ignoring_case(here.as_slice(), club) {
                return true;
            }
            t += 1;
        }
        d += 1;
    }
    false
}

/// Whether a country block lists the club `club` up to ASCII case.
fn countries_have_club(cs: &Vec<InternationalCountry>, club: &[char]) -> (r: bool)
    ensures
        r == countries_hold_club(country_views(cs@), club@),
{
    let ghost cv = country_views(cs@);
    let mut c: usize = 0;
    while c < cs.len()
        invariant
            c <= cs@.len(),
            cv == country_views(cs@),
            forall|a: int, k: int|
                0 <= a < c && 0 <= k < cv[a].clubs.len() ==> !eq_ignore_case(#[trigger] cv[a].clubs[k], club@),
        decreases cs@.len() - c,
    {
        let clubs = &cs[c].clubs;
        assert(cv[c as int] == cs@[c as int]@);
        let mut k: usize = 0;
        while k < clubs.len()
            invariant
                k <= clubs@.len(),
                c < cs@.len(),
                cv == country_views(cs@),
                cv[c as int].clubs == string_views(clubs@),
                forall|a: int, j: int|
                    0 <= a < c && 0 <= j < cv[a].clubs.len() ==> !eq_ignore_case(#[trigger] cv[a].clubs[j], club@),
                forall|j: int| 0 <= j < k ==> !eq_ignore_case(#[trigger] cv[c as int].clubs[j], club@),
            decreases clubs@.len() - k,
        {
            let here = string_chars(&clubs[k]);
            assert(cv[c as int].clubs[k as int] == clubs@[k as int]@);
            if same_ignoring_case(here.as_slice(), club) {
                return true;
            }
            k += 1;
        }
        c += 1;
    }
    false
}

impl World {
    /// Whether the world still names `club` (see `referenced`).
    pub fn is_referenced(&self, club: &str) -> (r: bool)
        ensures
            r == referenced(self@, club@),
    {
        let name = to_chars(club);
        if countries_have_club(&self.international_countries, name.as_slice()) {
            return true;
        }
        let ghost lv = self@.leagues;
        let mut l: usize = 0;
        while l < self.leagues.len()
            invariant
                l <= self.leagues@.len(),
                lv == self@.leagues,
                name@ == club@,
                forall|a: int| 0 <= a < l ==> !league_holds_club(#[trigger] lv[a], club@),
            decreases self.leagues@.len() - l,
        {
            assert(lv[l as int] == self.leagues@[l as int]@);
            if league_has_club(&self.leagues[l], name.as_slice()) {
                return true;
            }
            l += 1;
        }
        false
    }

    /// Releases clubs taken out of a division (see `released`).
    fn release_clubs(&mut self, clubs: Vec<String>, delete: bool)
        ensures
            final(self)@ == released(old(self)@, string_views(clubs@).to_set(), delete),
    {
        let ghost w0 = self@;
        let ghost names = string_views(clubs@);
        let mut i: usize = 0;
        assert(names.take(0).to_set() =~= Set::<Seq<char>>::empty());
        assert(self.retained_clubs.view() =~= released(w0, names.take(0).to_set(), delete).retained_clubs);
        assert(self.deleted_clubs.view() =~= released(w0, names.take(0).to_set(), delete).deleted_clubs);
        while i < clubs.len()
            invariant
                i <= clubs@.len(),
                names == string_views(clubs@),
                self@ == released(w0, names.take(i as int).to_set(), delete),
            decreases clubs@.len() - i,
        {
            let club = copy_string(&clubs[i]);
            assert(names[i as int] == club@);
            let ghost before = names.take(i as int).to_set();
            proof {
                assert(names.take(i + 1) =~= names.take(i as int).push(club@));
                names.take(i as int).lemma_push_to_set_commute(club@);
            }
            let gone = delete && !self.is_referenced(club.as_str());
            assert(referenced(self@, club@) == referenced(w0, club@));
            if gone {
                self.retained_clubs.remove(club.as_str());
                self.deleted_clubs.insert(club);
            } else {
                self.deleted_clubs.remove(club.as_str());
                self.retained_clubs.insert(club);
            }
            proof {
                let after = names.take(i + 1).to_set();
                assert(self@.leagues == w0.leagues);
                assert(self@.international_countries == w0.international_countries);
                assert forall|x: Seq<char>| referenced(self@, x) == referenced(w0, x) by {}
                assert(self@.retained_clubs =~= released(w0, after, delete).retained_clubs);
                assert(self@.deleted_clubs =~= released(w0, after, delete).deleted_clubs);
            }
            i += 1;
        }
        assert(names.take(i as int) =~= names);
    }

    /// Removes the league `index`, releasing its clubs; clubs to delete are
    /// marked only when nothing names them any more.
    pub fn remove_league(&mut self, index: usize, delete_clubs: bool) -> (r: Result<(), String>)
        ensures
            index >= old(self)@.leagues.len() ==> (r matches Err(e) && e@ == "Lega non trovata"@)
                && final(self)@ == old(self)@,
            index < old(self)@.leagues.len() ==> r is Ok && final(self)@ == released(
                WorldModel { leagues: old(self)@.leagues.remove(index as int), ..old(self)@ },
                league_clubs(old(self)@.leagues[index as int]),
                delete_clubs,
            ),
    {
        if index >= self.leagues.len() {
            return Err(literal("Lega non trovata"));
        }
        let ghost lv = self@.leagues;
        let league = self.leagues.remove(index);
        assert(self@.leagues =~= lv.remove(index as int));
        assert(league@ == lv[index as int]);
        let clubs = all_clubs(&league);
        self.release_clubs(clubs, delete_clubs);
        Ok(())
    }
}

impl World {
    /// Removes the club at place `club_index` of division `division_index`
    /// of league `league_index`, releasing it; it is marked for deletion
    /// only when asked and when nothing names it any more.
    pub fn remove_club_from_division(&mut self, league_index: usize, division_index: usize, club_index: usize, delete_club: bool) -> (r: Result<(), String>)
        ensures
            (league_index >= old(self)@.leagues.len() || club_at(
                old(self)@.leagues[league_index as int].divisions,
                (division_index, club_index),
            ) is None) ==> (r matches Err(e) && e@ == "Club non trovato"@) && final(self)@ == old(self)@,
            league_index < old(self)@.leagues.len() ==> (club_at(
                old(self)@.leagues[league_index as int].divisions,
                (division_index, club_index),
            ) matches Some(club) ==> r is Ok && final(self)@ == released(
                WorldModel {
                    leagues: old(self)@.leagues.update(
                        league_index as int,
                        LeagueModel {
                            divisions: old(self)@.leagues[league_index as int].divisions.update(
                                division_index as int,
                                DivisionModel {
                                    teams: old(self)@.leagues[league_index as int].divisions[division_index as int].teams.remove(
                                        club_index as int,
                                    ),
                                    ..old(self)@.leagues[league_index as int].divisions[division_index as int]
                                },
                            ),
                            ..old(self)@.leagues[league_index as int]
                        },
                    ),
                    ..old(self)@
                },
                set![club],
                delete_club,
            )),
    {
        let ghost w0 = self@;
        if league_index >= self.leagues.len() || division_index >= self.leagues[league_index].divisions.len()
            || club_index >= self.leagues[league_index].divisions[division_index].teams.len() {
            proof {
                if league_index < w0.leagues.len() {
                    assert(w0.leagues[league_index as int] == self.leagues@[league_index as int]@);
                    if division_index < w0.leagues[league_index as int].divisions.len() {
                        assert(w0.leagues[league_index as int].divisions[division_index as int]
                            == self.leagues@[league_index as int].divisions@[division_index as int]@);
                    }
                }
            }
            return Err(literal("Club non trovato"));
        }
        assert(w0.leagues[league_index as int] == self.leagues@[league_index as int]@);
        assert(w0.leagues[league_index as int].divisions[division_index as int]
            == self.leagues@[league_index as int].divisions@[division_index as int]@);
        let ghost teams0 = self.leagues@[league_index as int].divisions@[division_index as int].teams@;
        let club = self.leagues[league_index].divisions[division_index].teams.remove(club_index);
        proof {
            let l0 = w0.leagues[league_index as int];
            let d0 = l0.divisions[division_index as int];
            assert(string_views(self.leagues@[league_index as int].divisions@[division_index as int].teams@)
                =~= d0.teams.remove(club_index as int));
            assert(self@.leagues[league_index as int].divisions =~= l0.divisions.update(
                division_index as int,
                DivisionModel { teams: d0.teams.remove(club_index as int), ..d0 },
            ));
            assert(self@.leagues =~= w0.leagues.update(
                league_index as int,
                LeagueModel {
                    divisions: l0.divisions.update(
                        division_index as int,
                        DivisionModel { teams: d0.teams.remove(club_index as int), ..d0 },
                    ),
                    ..l0
                },
            ));
        }
        let mut clubs: Vec<String> = Vec::new();
        clubs.push(club);
        assert(string_views(clubs@) =~= seq![club@]);
        assert forall|x: Seq<char>| string_views(clubs@).to_set().contains(x) <==> set![club@].contains(x) by {
            if x == club@ {
                assert(string_views(clubs@)[0] == x);
            }
        }
        assert(string_views(clubs@).to_set() =~= set![club@]);
        self.release_clubs(clubs, delete_club);
        Ok(())
    }
}

/// The clubs of every division of a league, division by division.
fn all_clubs(league: &LeagueFile) -> (r: Vec<String>)
    ensures
        string_views(r@).to_set() == league_clubs(league@),
{
    let ghost lv = league@;
    let mut r: Vec<String> = Vec::new();
    let mut d: usize = 0;
    while d < league.divisions.len()
        invariant
            d <= league.divisions@.len(),
            lv == league@,
            forall|x: Seq<char>| string_views(r@).contains(x) <==> exists|a: int, t: int|
                0 <= a < d && 0 <= t < lv.divisions[a].teams.len() && #[trigger] lv.divisions[a].teams[t] == x,
        decreases league.divisions@.len() - d,
    {
        let teams = &league.divisions[d].teams;
        assert(lv.divisions[d as int] == league.divisions@[d as int]@);
        let mut t: usize = 0;
        while t < teams.len()
            invariant
                t <= teams@.len(),
                d < league.divisions@.len(),
                lv == league@,
                lv.divisions[d as int].teams == string_views(teams@),
                forall|x: Seq<char>| string_views(r@).contains(x) <==> (exists|a: int, u: int|
                    0 <= a < d && 0 <= u < lv.divisions[a].teams.len() && #[trigger] lv.divisions[a].teams[u] == x)
                    || (exists|u: int| 0 <= u < t && #[trigger] lv.divisions[d as int].teams[u] == x),
            decreases teams@.len() - t,
        {
            let club = copy_string(&teams[t]);
            assert(lv.divisions[d as int].teams[t as int] == club@);
            let ghost before = string_views(r@);
            r.push(club);
            assert(string_views(r@) =~= before.push(club@));
            proof {
                assert forall|x: Seq<char>| string_views(r@).contains(x) <==> (exists|a: int, u: int|
                    0 <= a < d && 0 <= u < lv.divisions[a].teams.len() && #[trigger] lv.divisions[a].teams[u] == x)
                    || (exists|u: int| 0 <= u < t + 1 && #[trigger] lv.divisions[d as int].teams[u] == x) by {
                    if string_views(r@).contains(x) {
                        let j = choose|j: int| 0 <= j < string_views(r@).len() && string_views(r@)[j] == x;
                        if j < before.len() {
                            assert(before.contains(x));
                        }
                    }
                    if exists|u: int| 0 <= u < t + 1 && #[trigger] lv.divisions[d as int].teams[u] == x {
                        let u = choose|u: int| 0 <= u < t + 1 && #[trigger] lv.divisions[d as int].teams[u] == x;
                        if u < t {
                            assert(before.contains(x));
                            assert(string_views(r@)[before.index_of(x)] == x);
                        } else {
                            assert(string_views(r@)[before.len() as int] == x);
                        }
                    }
                    if exists|a: int, u: int|
                        0 <= a < d && 0 <= u < lv.divisions[a].teams.len() && #[trigger] lv.divisions[a].teams[u] == x {
                        assert(before.contains(x));
                        assert(string_views(r@)[before.index_of(x)] == x);
                    }
                }
            }
            t += 1;
        }
        proof {
            assert forall|x: Seq<char>| string_views(r@).contains(x) <==> exists|a: int, u: int|
                0 <= a < d + 1 && 0 <= u < lv.divisions[a].teams.len() && #[trigger] lv.divisions[a].teams[u] == x by {
                if exists|u: int| 0 <= u < t && #[trigger] lv.divisions[d as int].teams[u] == x {
                    let u = choose|u: int| 0 <= u < t && #[trigger] lv.divisions[d as int].teams[u] == x;
                    assert(0 <= (d as int) < d + 1 && 0 <= u < lv.divisions[d as int].teams.len()
                        && lv.divisions[d as int].teams[u] == x);
                }
                if exists|a: int, u: int|
                    0 <= a < d + 1 && 0 <= u < lv.divisions[a].teams.len() && #[trigger] lv.divisions[a].teams[u] == x {
                    let (a, u) = choose|a: int, u: int|
                        0 <= a < d + 1 && 0 <= u < lv.divisions[a].teams.len() && #[trigger] lv.divisions[a].teams[u] == x;
                    if a == d {
                        assert(0 <= u < t && lv.divisions[d as int].teams[u] == x);
                    } else {
                        assert(0 <= a < d && 0 <= u < lv.divisions[a].teams.len() && lv.divisions[a].teams[u] == x);
                    }
                }
            }
        }
        d += 1;
    }
    assert(string_views(r@).to_set() =~= league_clubs(lv));
    r
}


// ---------------------------------------------------------------------------
// Levels, names and paths
// ---------------------------------------------------------------------------

/// Number of divisions that have a level.
pub open spec fn some_level_count(ds: Seq<DivisionModel>) -> nat
    decreases ds.len(),
{
    if ds.len() == 0 {
        0
    } else {
        some_level_count(ds.drop_last()) + if ds.last().level is Some {
            1nat
        } else {
            0nat
        }
    }
}

/// Whether the levels that the divisions have, sorted, are exactly
/// `1, 2, ..., n`.
pub open spec fn levels_one_to(ds: Seq<DivisionModel>, n: nat) -> bool {
    &&& some_level_count(ds) == n
    &&& forall|i: int| 0 <= i < ds.len() ==> (#[trigger] ds[i].level matches Some(v) ==> 1 <= v <= n)
    &&& forall|i: int, j: int|
        0 <= i < j < ds.len() && ds[i].level is Some ==> #[trigger] ds[i].level != #[trigger] ds[j].level
}

/// The order of levels, where a missing level comes first.
pub open spec fn level_le(a: Option<u32>, b: Option<u32>) -> bool {
    match (a, b) {
        (None, _) => true,
        (Some(_), None) => false,
        (Some(x), Some(y)) => x <= y,
    }
}

/// Index of the division with the greatest level among the first `n`, the
/// last of them when several share it (`max_by_key`).
pub open spec fn max_level_index(ds: Seq<DivisionModel>, n: nat) -> Option<nat>
    decreases n,
{
    if n == 0 {
        None
    } else {
        match max_level_index(ds, (n - 1) as nat) {
            None => Some((n - 1) as nat),
            Some(b) => if level_le(ds[b as int].level, ds[n - 1].level) {
                Some((n - 1) as nat)
            } else {
                Some(b)
            },
        }
    }
}

/// Number of country blocks named `name` up to ASCII case.
pub open spec fn named_count(cs: Seq<CountryModel>, name: Seq<char>) -> nat
    decreases cs.len(),
{
    if cs.len() == 0 {
        0
    } else {
        named_count(cs.drop_last(), name) + if eq_ignore_case(cs.last().name, name) {
            1nat
        } else {
            0nat
        }
    }
}

/// Index of the first country block named `name` up to ASCII case.
pub open spec fn first_named(cs: Seq<CountryModel>, name: Seq<char>) -> Option<nat>
    decreases cs.len(),
{
    if cs.len() == 0 {
        None
    } else if eq_ignore_case(cs[0].name, name) {
        Some(0)
    } else {
        match first_named(cs.drop_first(), name) {
            Some(i) => Some(i + 1),
            None => None,
        }
    }
}

/// Whether `c` separates the parts of a path.
pub open spec fn is_separator(c: char) -> bool {
    c == '/' || c == '\\'
}

/// The length of `p` up to and including its last separator.
pub open spec fn last_part_start(p: Seq<char>) -> nat
    decreases p.len(),
{
    if p.len() == 0 {
        0
    } else if is_separator(p.last()) {
        p.len()
    } else {
        last_part_start(p.drop_last())
    }
}

/// The last name of a path (`Path::file_name`): trailing separators and `.`
/// parts are passed over; there is none for an empty path or one that ends
/// with `..`.
pub open spec fn file_name(p: Seq<char>) -> Option<Seq<char>>
    decreases p.len(),
{
    if p.len() == 0 {
        None
    } else if is_separator(p.last()) {
        file_name(p.drop_last())
    } else {
        let k = last_part_start(p);
        let part = p.skip(k as int);
        if k < p.len() && part == "."@ {
            file_name(p.take(k as int))
        } else if part == ".."@ {
            None
        } else {
            Some(part)
        }
    }
}

/// Index of the last dot of `s`.
pub open spec fn last_dot(s: Seq<char>) -> Option<nat>
    decreases s.len(),
{
    if s.len() == 0 {
        None
    } else if s.last() == '.' {
        Some((s.len() - 1) as nat)
    } else {
        last_dot(s.drop_last())
    }
}

/// The stem of a path (`Path::file_stem`): its last name without the text
/// from its last dot, unless that dot is the first character.
pub open spec fn path_stem(p: Seq<char>) -> Option<Seq<char>> {
    match file_name(p) {
        None => None,
        Some(n) => match last_dot(n) {
            Some(i) => if i > 0 {
                Some(n.take(i as int))
            } else {
                Some(n)
            },
            None => Some(n),
        },
    }
}

/// `name` inside the folder `dir`.
pub open spec fn joined_path(dir: Seq<char>, name: Seq<char>) -> Seq<char> {
    if dir.len() == 0 {
        name
    } else if is_separator(dir.last()) {
        dir + name
    } else {
        dir + "/"@ + name
    }
}

/// The path of the league file of `country` in the folder `dir`.
pub open spec fn league_path_of(dir: Seq<char>, country: Seq<char>) -> Seq<char> {
    joined_path(dir, country + ".txt"@)
}

proof fn lemma_last_part_start(p: Seq<char>)
    ensures
        last_part_start(p) <= p.len(),
        forall|j: int| last_part_start(p) <= j < p.len() ==> !is_separator(#[trigger] p[j]),
        last_part_start(p) > 0 ==> is_separator(p[last_part_start(p) - 1]),
    decreases p.len(),
{
    if p.len() > 0 && !is_separator(p.last()) {
        lemma_last_part_start(p.drop_last());
        assert forall|j: int| last_part_start(p) <= j < p.len() implies !is_separator(#[trigger] p[j]) by {
            if j < p.len() - 1 {
                assert(p[j] == p.drop_last()[j]);
            }
        }
    }
}

/// The length of `p` up to and including its last separator.
fn part_start(p: &[char], n: usize) -> (r: usize)
    requires
        n <= p@.len(),
    ensures
        r == last_part_start(p@.take(n as int)),
        r <= n,
{
    let mut i: usize = n;
    while i > 0 && p[i - 1] != '/' && p[i - 1] != '\\'
        invariant
            i <= n <= p@.len(),
            last_part_start(p@.take(n as int)) == last_part_start(p@.take(i as int)),
        decreases i,
    {
        assert(p@.take(i as int).drop_last() =~= p@.take(i - 1));
        i -= 1;
    }
    if i > 0 {
        assert(p@.take(i as int).last() == p@[i - 1]);
    }
    i
}

/// `Path::file_name` (see `file_name`).
pub(crate) fn name_of_path(p: &[char]) -> (r: Option<Vec<char>>)
    ensures
        r matches Some(x) ==> file_name(p@) == Some(x@),
        r is None ==> file_name(p@) is None,
{
    let mut n: usize = p.len();
    assert(p@.take(n as int) =~= p@);
    loop
        invariant
            n <= p@.len(),
            file_name(p@) == file_name(p@.take(n as int)),
        decreases n,
    {
        if n == 0 {
            return None;
        }
        let ghost q = p@.take(n as int);
        assert(q.last() == p@[n - 1]);
        if p[n - 1] == '/' || p[n - 1] == '\\' {
            assert(q.drop_last() =~= p@.take(n - 1));
            n -= 1;
        } else {
            let k = part_start(p, n);
            let part = crate::text::sub_chars(p, k, n);
            assert(part@ =~= q.skip(k as int));
            if chars_are(part.as_slice(), ".") {
                assert(q.take(k as int) =~= p@.take(k as int));
                proof {
                    lemma_last_part_start(q);
                    if k == n {
                        assert(part@.len() == 0);
                    }
                }
                n = k;
            } else if chars_are(part.as_slice(), "..") {
                return None;
            } else {
                return Some(part);
            }
        }
    }
}

proof fn lemma_last_dot(s: Seq<char>, i: int)
    requires
        0 <= i <= s.len(),
        forall|j: int| i <= j < s.len() ==> #[trigger] s[j] != '.',
    ensures
        last_dot(s) == last_dot(s.take(i)),
    decreases s.len() - i,
{
    if i < s.len() {
        assert(s.drop_last().take(i) =~= s.take(i));
        lemma_last_dot(s.drop_last(), i);
    } else {
        assert(s.take(i) =~= s);
    }
}

/// `Path::file_stem` (see `path_stem`).
pub(crate) fn stem_of_path(p: &[char]) -> (r: Option<Vec<char>>)
    ensures
        r matches Some(x) ==> path_stem(p@) == Some(x@),
        r is None ==> path_stem(p@) is None,
{
    let name = match name_of_path(p) {
        Some(n) => n,
        None => {
            return None;
        },
    };
    let mut i: usize = name.len();
    while i > 0 && name[i - 1] != '.'
        invariant
            i <= name@.len(),
            forall|j: int| i <= j < name@.len() ==> #[trigger] name@[j] != '.',
        decreases i,
    {
        i -= 1;
    }
    proof {
        lemma_last_dot(name@, i as int);
        if i > 0 {
            assert(name@.take(i as int).last() == '.');
        }
    }
    if i > 1 {
        Some(crate::text::sub_chars(name.as_slice(), 0, i - 1))
    } else {
        Some(name)
    }
}

/// The extension of a path (`Path::extension`): the text after the last
/// dot of its last name, unless that dot is the first character.
pub open spec fn path_extension(p: Seq<char>) -> Option<Seq<char>> {
    match file_name(p) {
        None => None,
        Some(n) => match last_dot(n) {
            Some(i) => if i > 0 {
                Some(n.skip(i as int + 1))
            } else {
                None
            },
            None => None,
        },
    }
}

/// `Path::extension` (see `path_extension`).
pub(crate) fn extension_of_path(p: &[char]) -> (r: Option<Vec<char>>)
    ensures
        r matches Some(x) ==> path_extension(p@) == Some(x@),
        r is None ==> path_extension(p@) is None,
{
    let name = match name_of_path(p) {
        Some(n) => n,
        None => {
            return None;
        },
    };
    let mut i: usize = name.len();
    while i > 0 && name[i - 1] != '.'
        invariant
            i <= name@.len(),
            forall|j: int| i <= j < name@.len() ==> #[trigger] name@[j] != '.',
        decreases i,
    {
        i -= 1;
    }
    proof {
        lemma_last_dot(name@, i as int);
        if i > 0 {
            assert(name@.take(i as int).last() == '.');
        }
    }
    if i > 1 {
        let e = crate::text::sub_chars(name.as_slice(), i, name.len());
        assert(e@ =~= name@.skip(i as int));
        Some(e)
    } else {
        None
    }
}

/// The path `name` inside the folder `dir` (see `joined_path`).
pub fn join_path(dir: &str, name: &str) -> (r: String)
    ensures
        r@ == joined_path(dir@, name@),
{
    let d = to_chars(dir);
    if d.len() == 0 {
        return from_chars(to_chars(name).as_slice());
    }
    let mut out = copy_chars(d.as_slice());
    if d[d.len() - 1] != '/' && d[d.len() - 1] != '\\' {
        push_str(&mut out, "/");
    }
    push_str(&mut out, name);
    from_chars(out.as_slice())
}

/// The path of the league file of `country` in the folder `dir`.
pub fn league_path(dir: &str, country: &str) -> (r: String)
    ensures
        r@ == league_path_of(dir@, country@),
{
    let d = to_chars(dir);
    let mut name = to_chars(country);
    push_str(&mut name, ".txt");
    let mut out = copy_chars(d.as_slice());
    if d.len() == 0 {
        return from_chars(name.as_slice());
    }
    if d[d.len() - 1] != '/' && d[d.len() - 1] != '\\' {
        push_str(&mut out, "/");
    }
    push_all(&mut out, name.as_slice());
    assert(out@ =~= league_path_of(dir@, country@));
    from_chars(out.as_slice())
}


// ---------------------------------------------------------------------------
// Edits of the world's structure
// ---------------------------------------------------------------------------

/// Why a club cannot be added to division `di` of league `li`, if it cannot.
pub open spec fn add_club_check(w: WorldModel, li: int, di: int, club: Seq<char>) -> Result<(), Seq<char>> {
    match file_name_check(club) {
        Err(e) => Err(e),
        Ok(()) => if li >= w.leagues.len() {
            Err("Lega non trovata"@)
        } else if league_holds_club(w.leagues[li], club) {
            Err("Il club è già assegnato a una divisione di questo paese."@)
        } else if di >= w.leagues[li].divisions.len() {
            Err("Divisione non trovata"@)
        } else if w.leagues[li].divisions[di].teams.len() >= 24 {
            Err("Una divisione può contenere al massimo 24 club."@)
        } else {
            Ok(())
        },
    }
}

/// The world with `club` last in division `di` of league `li`.
pub open spec fn with_club_added(w: WorldModel, li: int, di: int, club: Seq<char>) -> WorldModel {
    let l = w.leagues[li];
    let d = l.divisions[di];
    WorldModel {
        leagues: w.leagues.update(
            li,
            LeagueModel { divisions: l.divisions.update(di, DivisionModel { teams: d.teams.push(club), ..d }), ..l },
        ),
        ..w
    }
}

/// The outcome of bringing the international list of the country of league
/// `li` in step with its first division: the new country blocks, or why not.
pub open spec fn sync_outcome(w: WorldModel, li: int) -> Result<Seq<CountryModel>, Seq<char>> {
    if li >= w.leagues.len() {
        Err("Lega non trovata"@)
    } else {
        let l = w.leagues[li];
        let cs = w.international_countries;
        if named_count(cs, l.country) > 1 {
            Err("Paese duplicato nel file internazionale: sincronizzazione ambigua."@)
        } else {
            match first_named(cs, l.country) {
                None => Ok(cs),
                Some(ci) => if level_count(l.divisions, Some(1u32)) != 1 {
                    Err("La sincronizzazione richiede una sola divisione di livello 1."@)
                } else {
                    let ti = first_with_level(l.divisions, Some(1u32))->0;
                    let k = cs[ci as int].clubs.len();
                    if l.divisions[ti as int].teams.len() < k {
                        Err(l.country + ": servono almeno "@ + decimal(k)
                            + " club in prima divisione per l'elenco internazionale."@)
                    } else {
                        Ok(cs.update(
                            ci as int,
                            CountryModel { clubs: l.divisions[ti as int].teams.take(k as int), ..cs[ci as int] },
                        ))
                    }
                },
            }
        }
    }
}

/// Whether a league already stands for `country`: the international file's
/// own name, or a league with that country or file stem, up to ASCII case.
pub open spec fn league_exists_for(w: WorldModel, country: Seq<char>) -> bool {
    eq_ignore_case(country, "International teams and tournaments"@) || exists|l: int|
        0 <= l < w.leagues.len() && claims_country(#[trigger] w.leagues[l], country)
}

/// Whether the league is that of `country`, by its country or its file
/// stem, up to ASCII case.
pub open spec fn claims_country(l: LeagueModel, country: Seq<char>) -> bool {
    eq_ignore_case(l.country, country) || (path_stem(l.path) matches Some(st) && eq_ignore_case(st, country))
}

/// The clubs of a new league: those of the country block, then the extra ones.
pub open spec fn new_league_teams(w: WorldModel, country: Seq<char>, extra: Seq<Seq<char>>) -> Seq<Seq<char>> {
    match first_named(w.international_countries, country) {
        Some(i) => w.international_countries[i as int].clubs + extra,
        None => extra,
    }
}

/// The name archives of a new league: those of the country block when it
/// has two, or the default archives of the country.
pub open spec fn new_league_name_files(w: WorldModel, country: Seq<char>) -> Seq<Seq<char>> {
    let default = seq!["data/names/"@ + country + "_1st.txt"@, "data/names/"@ + country + "_2nd.txt"@];
    match first_named(w.international_countries, country) {
        Some(i) => if w.international_countries[i as int].name_files.len() == 2 {
            w.international_countries[i as int].name_files
        } else {
            default
        },
        None => default,
    }
}

/// The reputation of a new league: that of the country block, or 5.
pub open spec fn new_league_reputation(w: WorldModel, country: Seq<char>) -> u32 {
    match first_named(w.international_countries, country) {
        Some(i) => match w.international_countries[i as int].reputation {
            Some(r) => r,
            None => 5,
        },
        None => 5,
    }
}

/// The league file created for `country`: one first division, not yet on disk.
pub open spec fn created_league(w: WorldModel, country: Seq<char>, division_name: Seq<char>, extra: Seq<Seq<char>>) -> LeagueModel {
    LeagueModel {
        division_sources: seq![None],
        name_files: new_league_name_files(w, country),
        source_bytes: seq![],
        path: league_path_of(w.league_directory, country),
        country: country,
        divisions: seq![
            DivisionModel {
                name: trim(division_name),
                level: Some(1),
                promotions: Some(0),
                relegations: Some(0),
                reputation: Some(new_league_reputation(w, country)),
                teams: new_league_teams(w, country, extra),
            },
        ],
        warnings: seq![],
    }
}

/// Why a league cannot be created for `country`, if it cannot; `on_disk`
/// tells whether its file already exists.
pub open spec fn create_check(w: WorldModel, country: Seq<char>, division_name: Seq<char>, extra: Seq<Seq<char>>, on_disk: bool) -> Result<(), Seq<char>> {
    match file_name_check(country) {
        Err(e) => Err(e),
        Ok(()) => if league_exists_for(w, country) {
            Err("Esiste già una lega per questo paese."@)
        } else {
            match division_check(division_name, new_league_teams(w, country, extra)) {
                Err(e) => Err(e),
                Ok(()) => if on_disk {
                    Err("Il file della lega esiste già su disco."@)
                } else {
                    Ok(())
                },
            }
        },
    }
}

/// The promotions of a new last division: the relegations of the division
/// with the greatest level, or 0.
pub open spec fn new_division_promotions(ds: Seq<DivisionModel>) -> u32 {
    match max_level_index(ds, ds.len()) {
        Some(k) => match ds[k as int].relegations {
            Some(v) => v,
            None => 0,
        },
        None => 0,
    }
}

/// Whether one of `teams` is already a club of the league, up to ASCII case.
pub open spec fn clubs_clash(ds: Seq<DivisionModel>, teams: Seq<Seq<char>>) -> bool {
    exists|i: int, d: int, t: int|
        0 <= i < teams.len() && 0 <= d < ds.len() && 0 <= t < ds[d].teams.len() && eq_ignore_case(
            #[trigger] ds[d].teams[t],
            #[trigger] teams[i],
        )
}

/// Whether a division is already named `name` (trimmed), up to ASCII case.
pub open spec fn name_used(ds: Seq<DivisionModel>, name: Seq<char>) -> bool {
    exists|d: int| 0 <= d < ds.len() && eq_ignore_case(#[trigger] ds[d].name, trim(name))
}

/// Why a division cannot be added to league `li`, if it cannot.
pub open spec fn add_division_check(w: WorldModel, li: int, name: Seq<char>, teams: Seq<Seq<char>>) -> Result<(), Seq<char>> {
    match division_check(name, teams) {
        Err(e) => Err(e),
        Ok(()) => if li >= w.leagues.len() {
            Err("Lega non trovata"@)
        } else {
            let ds = w.leagues[li].divisions;
            if ds.len() >= 12 {
                Err("Limite di 12 divisioni raggiunto."@)
            } else if !levels_one_to(ds, ds.len()) {
                Err("Correggi i livelli: devono essere consecutivi prima di aggiungere divisioni."@)
            } else if clubs_clash(ds, teams) {
                Err("Un club è già assegnato a una divisione di questo paese."@)
            } else if name_used(ds, name) {
                Err("Nome divisione già usato."@)
            } else {
                Ok(())
            }
        },
    }
}

/// The world with a new last division in league `li`.
pub open spec fn with_division_added(w: WorldModel, li: int, name: Seq<char>, teams: Seq<Seq<char>>) -> WorldModel {
    let l = w.leagues[li];
    let ds = l.divisions;
    let d = DivisionModel {
        name: trim(name),
        level: Some((ds.len() + 1) as u32),
        promotions: Some(new_division_promotions(ds)),
        relegations: Some(0),
        reputation: Some(1),
        teams: teams,
    };
    WorldModel {
        leagues: w.leagues.update(
            li,
            LeagueModel { divisions: ds.push(d), division_sources: l.division_sources.push(None), ..l },
        ),
        ..w
    }
}

/// Whether division `index` of league `li` may be removed: the league has
/// more than one division, its levels are `1..n` and the division is the
/// last level.
pub open spec fn removable(w: WorldModel, li: int, index: int) -> bool {
    li < w.leagues.len() && {
        let ds = w.leagues[li].divisions;
        &&& ds.len() > 1
        &&& levels_one_to(ds, (ds.len() as u32) as nat)
        &&& index < ds.len()
        &&& ds[index].level == Some(ds.len() as u32)
    }
}

/// The world without division `index` of league `li`: the division that then
/// has the greatest level gets no relegations, and the clubs are released.
pub open spec fn with_division_removed(w: WorldModel, li: int, index: int, delete: bool) -> WorldModel {
    let l = w.leagues[li];
    let ds1 = l.divisions.remove(index);
    let ds2 = match max_level_index(ds1, ds1.len()) {
        Some(k) => ds1.update(k as int, DivisionModel { relegations: Some(0), ..ds1[k as int] }),
        None => ds1,
    };
    let w1 = WorldModel {
        leagues: w.leagues.update(
            li,
            LeagueModel { divisions: ds2, division_sources: l.division_sources.remove(index), ..l },
        ),
        ..w
    };
    released(w1, l.divisions[index].teams.to_set(), delete)
}

/// The number of country blocks named `name` and the first of them.
fn countries_named(cs: &Vec<InternationalCountry>, name: &[char]) -> (r: (usize, Option<usize>))
    ensures
        r.0 == named_count(country_views(cs@), name@),
        r.1 matches Some(i) ==> first_named(country_views(cs@), name@) == Some(i as nat) && i < cs@.len(),
        r.1 is None ==> first_named(country_views(cs@), name@) is None,
{
    let ghost cv = country_views(cs@);
    let mut count: usize = 0;
    let mut first: Option<usize> = None;
    let mut i: usize = 0;
    while i < cs.len()
        invariant
            i <= cs@.len(),
            cv == country_views(cs@),
            count == named_count(cv.take(i as int), name@),
            count <= i,
            first is None ==> forall|j: int| 0 <= j < i ==> !eq_ignore_case(#[trigger] cv[j].name, name@),
            first matches Some(f) ==> f < i && eq_ignore_case(cv[f as int].name, name@) && forall|j: int|
                0 <= j < f ==> !eq_ignore_case(#[trigger] cv[j].name, name@),
        decreases cs@.len() - i,
    {
        assert(cv.take(i + 1).drop_last() =~= cv.take(i as int));
        assert(cv[i as int] == cs@[i as int]@);
        let here = string_chars(&cs[i].name);
        if same_ignoring_case(here.as_slice(), name) {
            count += 1;
            if first.is_none() {
                first = Some(i);
            }
        }
        i += 1;
    }
    assert(cv.take(i as int) =~= cv);
    proof {
        match first {
            Some(f) => lemma_first_named(cv, name@, f as int),
            None => lemma_first_named(cv, name@, i as int),
        }
    }
    (count, first)
}

proof fn lemma_first_named(cs: Seq<CountryModel>, name: Seq<char>, i: int)
    requires
        0 <= i <= cs.len(),
        forall|j: int| 0 <= j < i ==> !eq_ignore_case(#[trigger] cs[j].name, name),
    ensures
        i < cs.len() && eq_ignore_case(cs[i].name, name) ==> first_named(cs, name) == Some(i as nat),
        i == cs.len() ==> first_named(cs, name) is None,
    decreases i,
{
    if i > 0 {
        lemma_first_named(cs.drop_first(), name, i - 1);
    }
}

/// Whether the levels of `ds` are exactly `1..n` (see `levels_one_to`).
pub(crate) fn levels_form_range(ds: &Vec<Division>, n: u64) -> (r: bool)
    ensures
        r == levels_one_to(division_views(ds@), n as nat),
{
    let ghost dv = division_views(ds@);
    let mut count: u64 = 0;
    let mut i: usize = 0;
    while i < ds.len()
        invariant
            i <= ds@.len(),
            dv == division_views(ds@),
            count == some_level_count(dv.take(i as int)),
            count <= i,
            forall|j: int| 0 <= j < i ==> (#[trigger] dv[j].level matches Some(v) ==> 1 <= v <= n),
        decreases ds@.len() - i,
    {
        assert(dv.take(i + 1).drop_last() =~= dv.take(i as int));
        assert(dv[i as int] == ds@[i as int]@);
        match ds[i].level {
            Some(v) => {
                if !(1 <= v as u64 && v as u64 <= n) {
                    assert(dv[i as int].level == Some(v));
                    return false;
                }
                count += 1;
            },
            None => {},
        }
        i += 1;
    }
    assert(dv.take(i as int) =~= dv);
    if count != n {
        return false;
    }
    let mut a: usize = 0;
    while a < ds.len()
        invariant
            a <= ds@.len(),
            dv == division_views(ds@),
            forall|x: int, y: int| 0 <= x < a && x < y < ds@.len() && dv[x].level is Some ==> #[trigger] dv[x].level != #[trigger] dv[y].level,
        decreases ds@.len() - a,
    {
        assert(dv[a as int] == ds@[a as int]@);
        if ds[a].level.is_some() {
            let mut b: usize = a + 1;
            while b < ds.len()
                invariant
                    a < b <= ds@.len(),
                    dv == division_views(ds@),
                    dv[a as int].level is Some,
                    forall|x: int, y: int| 0 <= x < a && x < y < ds@.len() && dv[x].level is Some ==> #[trigger] dv[x].level != #[trigger] dv[y].level,
                    forall|y: int| a < y < b ==> dv[a as int].level != #[trigger] dv[y].level,
                decreases ds@.len() - b,
            {
                assert(dv[b as int] == ds@[b as int]@);
                if ds[a].level == ds[b].level {
                    assert(dv[a as int].level == dv[b as int].level);
                    return false;
                }
                b += 1;
            }
        }
        a += 1;
    }
    true
}

/// The division with the greatest level, the last one on a tie (see
/// `max_level_index`).
pub(crate) fn max_level_division(ds: &Vec<Division>) -> (r: Option<usize>)
    ensures
        r matches Some(k) ==> max_level_index(division_views(ds@), ds@.len()) == Some(k as nat) && k < ds@.len(),
        r is None ==> max_level_index(division_views(ds@), ds@.len()) is None,
{
    let ghost dv = division_views(ds@);
    let mut best: Option<usize> = None;
    let mut i: usize = 0;
    while i < ds.len()
        invariant
            i <= ds@.len(),
            dv == division_views(ds@),
            best matches Some(b) ==> max_level_index(dv, i as nat) == Some(b as nat) && b < i,
            best is None ==> max_level_index(dv, i as nat) is None && i == 0,
        decreases ds@.len() - i,
    {
        assert(dv[i as int] == ds@[i as int]@);
        match best {
            None => {
                best = Some(i);
            },
            Some(b) => {
                assert(dv[b as int] == ds@[b as int]@);
                let le = match (ds[b].level, ds[i].level) {
                    (None, _) => true,
                    (Some(_), None) => false,
                    (Some(x), Some(y)) => x <= y,
                };
                if le {
                    best = Some(i);
                }
            },
        }
        i += 1;
    }
    best
}

impl World {
    /// Adds `club` last to division `division_index` of league `league_index`
    /// (see `add_club_check`).
    pub fn add_club_to_division(&mut self, league_index: usize, division_index: usize, club: &str) -> (r: Result<(), String>)
        ensures
            outcome(r) == add_club_check(old(self)@, league_index as int, division_index as int, club@),
            r is Ok ==> final(self)@ == with_club_added(old(self)@, league_index as int, division_index as int, club@),
            r is Err ==> final(self)@ == old(self)@,
    {
        match validate_filename(club) {
            Err(e) => {
                return Err(e);
            },
            Ok(()) => {},
        }
        if league_index >= self.leagues.len() {
            return Err(literal("Lega non trovata"));
        }
        let ghost w0 = self@;
        assert(w0.leagues[league_index as int] == self.leagues@[league_index as int]@);
        let name = to_chars(club);
        if league_has_club(&self.leagues[league_index], name.as_slice()) {
            return Err(literal("Il club è già assegnato a una divisione di questo paese."));
        }
        if division_index >= self.leagues[league_index].divisions.len() {
            return Err(literal("Divisione non trovata"));
        }
        let ghost l = w0.leagues[league_index as int];
        assert(l.divisions[division_index as int] == self.leagues@[league_index as int].divisions@[division_index as int]@);
        if self.leagues[league_index].divisions[division_index].teams.len() >= 24 {
            return Err(literal("Una divisione può contenere al massimo 24 club."));
        }
        let s = literal(club);
        let ghost old_teams = self.leagues@[league_index as int].divisions@[division_index as int].teams@;
        let ghost old_divs = self.leagues@[league_index as int].divisions@;
        let ghost old_leagues = self.leagues@;
        self.leagues[league_index].divisions[division_index].teams.push(s);
        proof {
            let nd = self.leagues@[league_index as int].divisions@[division_index as int];
            assert(string_views(nd.teams@) =~= string_views(old_teams).push(club@));
            assert(division_views(self.leagues@[league_index as int].divisions@) =~= division_views(old_divs).update(
                division_index as int,
                DivisionModel { teams: l.divisions[division_index as int].teams.push(club@), ..l.divisions[division_index as int] },
            ));
            assert(league_views(self.leagues@) =~= league_views(old_leagues).update(
                league_index as int,
                LeagueModel {
                    divisions: l.divisions.update(
                        division_index as int,
                        DivisionModel { teams: l.divisions[division_index as int].teams.push(club@), ..l.divisions[division_index as int] },
                    ),
                    ..l
                },
            ));
        }
        Ok(())
    }

    /// Makes the club list of the country block of league `league_index` the
    /// first clubs of its first division (see `sync_outcome`).
    pub fn sync_international(&mut self, league_index: usize) -> (r: Result<(), String>)
        ensures
            r matches Ok(()) ==> sync_outcome(old(self)@, league_index as int) matches Ok(cs)
                && final(self)@ == (WorldModel { international_countries: cs, ..old(self)@ }),
            r matches Err(e) ==> sync_outcome(old(self)@, league_index as int) == Err::<Seq<CountryModel>, Seq<char>>(e@)
                && final(self)@ == old(self)@,
    {
        if league_index >= self.leagues.len() {
            return Err(literal("Lega non trovata"));
        }
        let ghost w0 = self@;
        let league = &self.leagues[league_index];
        assert(w0.leagues[league_index as int] == league@);
        let country = string_chars(&league.country);
        let (count, first) = countries_named(&self.international_countries, country.as_slice());
        if count > 1 {
            return Err(literal("Paese duplicato nel file internazionale: sincronizzazione ambigua."));
        }
        let ci = match first {
            Some(ci) => ci,
            None => {
                return Ok(());
            },
        };
        let (tops, top) = crate::leagues::level_census(&league.divisions, Some(1));
        if tops != 1 {
            return Err(literal("La sincronizzazione richiede una sola divisione di livello 1."));
        }
        let ti = match top {
            Some(t) => t,
            None => {
                proof {
                    crate::leagues::lemma_count_without_first(league@.divisions, Some(1u32));
                }
                return Err(literal("La sincronizzazione richiede una sola divisione di livello 1."));
            },
        };
        let ghost l = league@;
        assert(l.divisions[ti as int] == league.divisions@[ti as int]@);
        assert(w0.international_countries[ci as int] == self.international_countries@[ci as int]@);
        let count = self.international_countries[ci].clubs.len();
        if league.divisions[ti].teams.len() < count {
            let mut m = copy_chars(country.as_slice());
            push_str(&mut m, ": servono almeno ");
            push_decimal(&mut m, count as u64);
            push_str(&mut m, " club in prima divisione per l'elenco internazionale.");
            return Err(from_chars(m.as_slice()));
        }
        let teams = &league.divisions[ti].teams;
        let mut clubs: Vec<String> = Vec::new();
        let mut k: usize = 0;
        while k < count
            invariant
                k <= count <= teams@.len(),
                string_views(clubs@) == string_views(teams@).take(k as int),
            decreases count - k,
        {
            let c = copy_string(&teams[k]);
            let ghost before = string_views(clubs@);
            clubs.push(c);
            assert(string_views(teams@)[k as int] == c@);
            assert(string_views(teams@).take(k + 1) =~= string_views(teams@).take(k as int).push(c@));
            assert(string_views(clubs@) =~= before.push(c@));
            k += 1;
        }
        let ghost old_cs = self.international_countries@;
        self.international_countries[ci].clubs = clubs;
        assert(country_views(self.international_countries@) =~= country_views(old_cs).update(
            ci as int,
            CountryModel { clubs: l.divisions[ti as int].teams.take(count as int), ..w0.international_countries[ci as int] },
        ));
        Ok(())
    }
}


/// Whether the league has the country `country` or a file of that stem.
fn league_claims(league: &LeagueFile, country: &[char]) -> (r: bool)
    ensures
        r == claims_country(league@, country@),
{
    let c = string_chars(&league.country);
    if same_ignoring_case(c.as_slice(), country) {
        return true;
    }
    let p = string_chars(&league.path);
    match stem_of_path(p.as_slice()) {
        Some(st) => same_ignoring_case(st.as_slice(), country),
        None => false,
    }
}

/// Whether a league already stands for `country` (see `league_exists_for`).
fn league_taken(w: &World, country: &[char]) -> (r: bool)
    ensures
        r == league_exists_for(w@, country@),
{
    let reserved = to_chars("International teams and tournaments");
    if same_ignoring_case(country, reserved.as_slice()) {
        return true;
    }
    let ghost lv = w@.leagues;
    let mut l: usize = 0;
    while l < w.leagues.len()
        invariant
            l <= w.leagues@.len(),
            lv == w@.leagues,
            !eq_ignore_case(country@, "International teams and tournaments"@),
            forall|a: int| 0 <= a < l ==> !claims_country(#[trigger] lv[a], country@),
        decreases w.leagues@.len() - l,
    {
        assert(lv[l as int] == w.leagues@[l as int]@);
        if league_claims(&w.leagues[l], country) {
            return true;
        }
        l += 1;
    }
    false
}

/// Whether one of `teams` is already a club of the league (see `clubs_clash`).
fn clash_with(league: &LeagueFile, teams: &Vec<String>) -> (r: bool)
    ensures
        r == clubs_clash(league@.divisions, string_views(teams@)),
{
    let ghost tv = string_views(teams@);
    let mut i: usize = 0;
    while i < teams.len()
        invariant
            i <= teams@.len(),
            tv == string_views(teams@),
            forall|a: int| 0 <= a < i ==> !league_holds_club(league@, #[trigger] tv[a]),
        decreases teams@.len() - i,
    {
        let t = string_chars(&teams[i]);
        assert(tv[i as int] == t@);
        if league_has_club(league, t.as_slice()) {
            proof {
                let (d, u) = choose|d: int, u: int|
                    0 <= d < league@.divisions.len() && 0 <= u < league@.divisions[d].teams.len() && eq_ignore_case(
                        #[trigger] league@.divisions[d].teams[u],
                        t@,
                    );
                assert(eq_ignore_case(league@.divisions[d].teams[u], tv[i as int]));
            }
            return true;
        }
        i += 1;
    }
    proof {
        if clubs_clash(league@.divisions, tv) {
            let (a, d, u) = choose|a: int, d: int, u: int|
                0 <= a < tv.len() && 0 <= d < league@.divisions.len() && 0 <= u < league@.divisions[d].teams.len()
                    && eq_ignore_case(#[trigger] league@.divisions[d].teams[u], #[trigger] tv[a]);
            assert(league_holds_club(league@, tv[a]));
        }
    }
    false
}

/// Whether a division is already named `name` (see `name_used`).
fn name_taken(ds: &Vec<Division>, name: &[char]) -> (r: bool)
    ensures
        r == name_used(division_views(ds@), name@),
{
    let ghost dv = division_views(ds@);
    let t = trimmed(name);
    let mut d: usize = 0;
    while d < ds.len()
        invariant
            d <= ds@.len(),
            dv == division_views(ds@),
            t@ == trim(name@),
            forall|a: int| 0 <= a < d ==> !eq_ignore_case(#[trigger] dv[a].name, trim(name@)),
        decreases ds@.len() - d,
    {
        assert(dv[d as int] == ds@[d as int]@);
        let n = string_chars(&ds[d].name);
        if same_ignoring_case(n.as_slice(), t.as_slice()) {
            assert(eq_ignore_case(dv[d as int].name, trim(name@)));
            return true;
        }
        d += 1;
    }
    false
}

impl World {
    /// The path of the league file that `create_league` makes for `country`.
    pub fn league_path(&self, country: &str) -> (r: String)
        ensures
            r@ == league_path_of(self@.league_directory, country@),
    {
        league_path(self.league_directory.as_str(), country)
    }

    /// Creates the league of `country` with one first division holding the
    /// clubs of its country block and `extra_teams` (see `create_check`);
    /// `league_file_exists` tells whether the file at `league_path` exists.
    /// Returns the index of the new league.
    pub fn create_league(&mut self, country: &str, division_name: &str, extra_teams: Vec<String>, league_file_exists: bool) -> (r: Result<usize, String>)
        ensures
            r matches Ok(i) ==> create_check(old(self)@, country@, division_name@, string_views(extra_teams@), league_file_exists)
                == Ok::<(), Seq<char>>(()) && i == old(self)@.leagues.len() && final(self)@ == (WorldModel {
                leagues: old(self)@.leagues.push(created_league(old(self)@, country@, division_name@, string_views(extra_teams@))),
                ..old(self)@
            }),
            r matches Err(e) ==> create_check(old(self)@, country@, division_name@, string_views(extra_teams@), league_file_exists)
                == Err::<(), Seq<char>>(e@) && final(self)@ == old(self)@,
    {
        let ghost w0 = self@;
        match validate_filename(country) {
            Err(e) => {
                return Err(e);
            },
            Ok(()) => {},
        }
        let name = to_chars(country);
        if league_taken(self, name.as_slice()) {
            return Err(literal("Esiste già una lega per questo paese."));
        }
        let (_, first) = countries_named(&self.international_countries, name.as_slice());
        let mut teams: Vec<String> = Vec::new();
        let mut name_files: Vec<String> = Vec::new();
        let mut reputation: u32 = 5;
        let mut use_defaults = true;
        match first {
            Some(i) => {
                let c = &self.international_countries[i];
                assert(w0.international_countries[i as int] == c@);
                teams = copy_strings(&c.clubs);
                if c.name_files.len() == 2 {
                    name_files = copy_strings(&c.name_files);
                    use_defaults = false;
                }
                reputation = match c.reputation {
                    Some(r) => r,
                    None => 5,
                };
            },
            None => {
                assert(string_views(teams@) =~= seq![]);
            },
        }
        let ghost base = string_views(teams@);
        let mut extra = extra_teams;
        let ghost ev = string_views(extra@);
        teams.append(&mut extra);
        assert(string_views(teams@) =~= base + ev);
        assert(string_views(teams@) == new_league_teams(w0, country@, ev));
        match validate_division(division_name, &teams) {
            Err(e) => {
                return Err(e);
            },
            Ok(()) => {},
        }
        if league_file_exists {
            return Err(literal("Il file della lega esiste già su disco."));
        }
        if use_defaults {
            let mut a = to_chars("data/names/");
            push_all(&mut a, name.as_slice());
            push_str(&mut a, "_1st.txt");
            let mut b = to_chars("data/names/");
            push_all(&mut b, name.as_slice());
            push_str(&mut b, "_2nd.txt");
            let mut files: Vec<String> = Vec::new();
            files.push(from_chars(a.as_slice()));
            files.push(from_chars(b.as_slice()));
            name_files = files;
        }
        assert(string_views(name_files@) =~= new_league_name_files(w0, country@));
        let dname = to_chars(division_name);
        let division = Division {
            name: from_chars(trimmed(dname.as_slice()).as_slice()),
            level: Some(1),
            promotions: Some(0),
            relegations: Some(0),
            reputation: Some(reputation),
            teams,
        };
        let mut divisions: Vec<Division> = Vec::new();
        divisions.push(division);
        let mut sources: Vec<Option<usize>> = Vec::new();
        sources.push(None);
        let league = LeagueFile {
            division_sources: sources,
            name_files,
            source_bytes: Vec::new(),
            path: self.league_path(country),
            country: literal(country),
            divisions,
            warnings: Vec::new(),
        };
        proof {
            assert(division_views(league.divisions@) =~= created_league(w0, country@, division_name@, ev).divisions);
            assert(string_views(league.warnings@) =~= seq![]);
            assert(league.division_sources@ =~= seq![None]);
            assert(league.source_bytes@ =~= seq![]);
        }
        let ghost old_leagues = self.leagues@;
        self.leagues.push(league);
        assert(league_views(self.leagues@) =~= league_views(old_leagues).push(league@));
        Ok(self.leagues.len() - 1)
    }

    /// Adds a new last division to league `league_index` (see
    /// `add_division_check`): it takes the next level, as many promotions as
    /// the former last division had relegations, no relegations and
    /// reputation 1.
    pub fn add_division(&mut self, league_index: usize, name: &str, teams: Vec<String>) -> (r: Result<(), String>)
        ensures
            outcome(r) == add_division_check(old(self)@, league_index as int, name@, string_views(teams@)),
            r is Ok ==> final(self)@ == with_division_added(old(self)@, league_index as int, name@, string_views(teams@)),
            r is Err ==> final(self)@ == old(self)@,
    {
        let ghost w0 = self@;
        match validate_division(name, &teams) {
            Err(e) => {
                return Err(e);
            },
            Ok(()) => {},
        }
        if league_index >= self.leagues.len() {
            return Err(literal("Lega non trovata"));
        }
        let league = &self.leagues[league_index];
        assert(w0.leagues[league_index as int] == league@);
        let count = league.divisions.len();
        if count >= 12 {
            return Err(literal("Limite di 12 divisioni raggiunto."));
        }
        if !levels_form_range(&league.divisions, count as u64) {
            return Err(literal("Correggi i livelli: devono essere consecutivi prima di aggiungere divisioni."));
        }
        if clash_with(league, &teams) {
            return Err(literal("Un club è già assegnato a una divisione di questo paese."));
        }
        let n = to_chars(name);
        if name_taken(&league.divisions, n.as_slice()) {
            return Err(literal("Nome divisione già usato."));
        }
        let promotions = match max_level_division(&league.divisions) {
            Some(k) => {
                assert(league@.divisions[k as int] == league.divisions@[k as int]@);
                match league.divisions[k].relegations {
                    Some(v) => v,
                    None => 0,
                }
            },
            None => 0,
        };
        let division = Division {
            name: from_chars(trimmed(n.as_slice()).as_slice()),
            level: Some(count as u32 + 1),
            promotions: Some(promotions),
            relegations: Some(0),
            reputation: Some(1),
            teams,
        };
        let ghost dview = division@;
        let ghost l = w0.leagues[league_index as int];
        let ghost old_divs = self.leagues@[league_index as int].divisions@;
        let ghost old_leagues = self.leagues@;
        self.leagues[league_index].divisions.push(division);
        let ghost mid = self.leagues@;
        self.leagues[league_index].division_sources.push(None);
        proof {
            assert(division_views(self.leagues@[league_index as int].divisions@) =~= division_views(old_divs).push(dview));
            assert(league_views(self.leagues@) =~= league_views(old_leagues).update(
                league_index as int,
                LeagueModel { divisions: l.divisions.push(dview), division_sources: l.division_sources.push(None), ..l },
            ));
        }
        Ok(())
    }

    /// Whether the league at `league_index` has room for another division:
    /// a league holds at most 12.
    pub fn has_room_for_division(&self, league_index: usize) -> (r: bool)
        ensures
            r == (league_index < self@.leagues.len() && self@.leagues[league_index as int].divisions.len() < 12),
    {
        if league_index >= self.leagues.len() {
            return false;
        }
        assert(self@.leagues[league_index as int] == self.leagues@[league_index as int]@);
        self.leagues[league_index].divisions.len() < 12
    }

    /// Whether division `index` of league `league_index` may be removed (see
    /// `removable`).
    pub fn can_remove_division(&self, league_index: usize, index: usize) -> (r: bool)
        ensures
            r == removable(self@, league_index as int, index as int),
    {
        if league_index >= self.leagues.len() {
            return false;
        }
        let league = &self.leagues[league_index];
        assert(self@.leagues[league_index as int] == league@);
        let n = league.divisions.len();
        if n <= 1 {
            return false;
        }
        let top = n as u32;
        if !levels_form_range(&league.divisions, top as u64) {
            return false;
        }
        if index >= n {
            return false;
        }
        assert(league@.divisions[index as int] == league.divisions@[index as int]@);
        league.divisions[index].level == Some(top)
    }

    /// Removes division `index` of league `league_index` when it is the last
    /// level (see `removable`, `with_division_removed`).
    pub fn remove_division(&mut self, league_index: usize, index: usize, delete_clubs: bool) -> (r: Result<(), String>)
        requires
            removable(old(self)@, league_index as int, index as int) ==> index < old(
                self,
            )@.leagues[league_index as int].division_sources.len(),
        ensures
            !removable(old(self)@, league_index as int, index as int) ==> (r matches Err(e)
                && e@ == "Puoi rimuovere soltanto l'ultima divisione, mai la prima."@) && final(self)@ == old(self)@,
            removable(old(self)@, league_index as int, index as int) ==> r is Ok && final(self)@
                == with_division_removed(old(self)@, league_index as int, index as int, delete_clubs),
    {
        if !self.can_remove_division(league_index, index) {
            return Err(literal("Puoi rimuovere soltanto l'ultima divisione, mai la prima."));
        }
        let ghost w0 = self@;
        let ghost l = w0.leagues[league_index as int];
        let ghost old_leagues = self.leagues@;
        let removed = self.leagues[league_index].divisions.remove(index);
        self.leagues[league_index].division_sources.remove(index);
        let ghost ds1 = l.divisions.remove(index as int);
        assert(division_views(self.leagues@[league_index as int].divisions@) =~= ds1);
        assert(removed@ == l.divisions[index as int]);
        let ghost mid = self.leagues@;
        match max_level_division(&self.leagues[league_index].divisions) {
            Some(k) => {
                let ghost before = self.leagues@[league_index as int].divisions@;
                self.leagues[league_index].divisions[k].relegations = Some(0);
                assert(division_views(self.leagues@[league_index as int].divisions@) =~= ds1.update(
                    k as int,
                    DivisionModel { relegations: Some(0), ..ds1[k as int] },
                ));
            },
            None => {},
        }
        proof {
            let ds2 = match max_level_index(ds1, ds1.len()) {
                Some(k) => ds1.update(k as int, DivisionModel { relegations: Some(0), ..ds1[k as int] }),
                None => ds1,
            };
            assert(self.leagues@[league_index as int]@.divisions == ds2);
            assert(league_views(self.leagues@) =~= league_views(old_leagues).update(
                league_index as int,
                LeagueModel { divisions: ds2, division_sources: l.division_sources.remove(index as int), ..l },
            ));
        }
        self.release_clubs(removed.teams, delete_clubs);
        Ok(())
    }
}

// ---------------------------------------------------------------------------
// Clubs without a league
// ---------------------------------------------------------------------------

/// The clubs of the country blocks, block by block.
pub open spec fn country_club_names(cs: Seq<CountryModel>) -> Seq<Seq<char>>
    decreases cs.len(),
{
    if cs.len() == 0 {
        seq![]
    } else {
        country_club_names(cs.drop_last()) + cs.last().clubs
    }
}

/// The clubs of the divisions, division by division.
pub open spec fn division_club_names(ds: Seq<DivisionModel>) -> Seq<Seq<char>>
    decreases ds.len(),
{
    if ds.len() == 0 {
        seq![]
    } else {
        division_club_names(ds.drop_last()) + ds.last().teams
    }
}

/// The clubs of the leagues, league by league.
pub open spec fn league_club_names(ls: Seq<LeagueModel>) -> Seq<Seq<char>>
    decreases ls.len(),
{
    if ls.len() == 0 {
        seq![]
    } else {
        league_club_names(ls.drop_last()) + division_club_names(ls.last().divisions)
    }
}

/// The Unicode lower case of each text.
pub open spec fn lowered_all(s: Seq<Seq<char>>) -> Seq<Seq<char>> {
    s.map_values(|x: Seq<char>| unicode_lowercase(x))
}

/// The names of the countries of a world: its country blocks and its
/// leagues.
pub open spec fn world_countries(w: WorldModel) -> Seq<Seq<char>> {
    w.international_countries.map_values(|c: CountryModel| c.name) + w.leagues.map_values(|l: LeagueModel| l.country)
}

/// The clubs of a world: in its country blocks and in its leagues.
pub open spec fn world_clubs(w: WorldModel) -> Seq<Seq<char>> {
    country_club_names(w.international_countries) + league_club_names(w.leagues)
}

/// Whether the team file at `path` belongs to a club without a league:
/// a text file whose stem, in lower case, is neither a country nor a club
/// of the world.
pub open spec fn is_neutral_file(w: WorldModel, path: Seq<char>) -> bool {
    &&& is_text_file(path)
    &&& path_stem(path) matches Some(stem)
    &&& !lowered_all(world_countries(w)).contains(unicode_lowercase(stem))
    &&& !lowered_all(world_clubs(w)).contains(unicode_lowercase(stem))
}

/// The neutral team files among the first `n` paths, each keyed by its
/// stem in lower case.
pub open spec fn neutral_keys(w: WorldModel, ps: Seq<Seq<char>>, n: nat) -> Seq<(Seq<char>, usize)>
    decreases n,
{
    if n == 0 {
        seq![]
    } else {
        let i = (n - 1) as int;
        neutral_keys(w, ps, (n - 1) as nat) + if is_neutral_file(w, ps[i]) {
            seq![(unicode_lowercase(path_stem(ps[i]).unwrap()), i as usize)]
        } else {
            seq![]
        }
    }
}

/// The clubs that have a team file but no place in the world, by name in
/// lower case: the stems of the neutral files among `ps`.
pub open spec fn neutral_clubs_of(w: WorldModel, ps: Seq<Seq<char>>) -> Seq<Seq<char>> {
    sorted_by_key(neutral_keys(w, ps, ps.len())).map_values(|e: (Seq<char>, usize)| path_stem(ps[e.1 as int]).unwrap())
}

fn push_lowered(out: &mut Vec<Vec<char>>, names: &Vec<String>)
    ensures
        char_views(final(out)@) == char_views(old(out)@) + lowered_all(string_views(names@)),
{
    let ghost start = char_views(out@);
    let ghost nv = string_views(names@);
    let mut i: usize = 0;
    assert(lowered_all(nv).take(0) =~= seq![]);
    assert(start + seq![] =~= start);
    while i < names.len()
        invariant
            i <= names@.len(),
            nv == string_views(names@),
            char_views(out@) == start + lowered_all(nv).take(i as int),
        decreases names@.len() - i,
    {
        let low = to_unicode_lowercase(names[i].as_str());
        assert(nv[i as int] == names@[i as int]@);
        let ghost before = char_views(out@);
        out.push(string_chars(&low));
        assert(char_views(out@) =~= before.push(unicode_lowercase(nv[i as int])));
        assert(lowered_all(nv).take(i + 1) =~= lowered_all(nv).take(i as int).push(unicode_lowercase(nv[i as int])));
        i += 1;
    }
    assert(lowered_all(nv).take(i as int) =~= lowered_all(nv));
}

fn world_keys(w: &World) -> (r: (Vec<Vec<char>>, Vec<Vec<char>>))
    ensures
        char_views(r.0@) == lowered_all(world_countries(w@)),
        char_views(r.1@) == lowered_all(world_clubs(w@)),
{
    let ghost wv = w@;
    let mut countries: Vec<Vec<char>> = Vec::new();
    let mut clubs: Vec<Vec<char>> = Vec::new();
    let ghost cn = wv.international_countries.map_values(|c: CountryModel| c.name);
    let ghost ln = wv.leagues.map_values(|l: LeagueModel| l.country);
    assert(char_views(countries@) =~= seq![]);
    assert(char_views(clubs@) =~= seq![]);
    let mut i: usize = 0;
    while i < w.international_countries.len()
        invariant
            i <= w.international_countries@.len(),
            wv == w@,
            cn == wv.international_countries.map_values(|c: CountryModel| c.name),
            char_views(countries@) == lowered_all(cn.take(i as int)),
            char_views(clubs@) == lowered_all(country_club_names(wv.international_countries.take(i as int))),
        decreases w.international_countries@.len() - i,
    {
        let c = &w.international_countries[i];
        assert(wv.international_countries[i as int] == c@);
        let low = to_unicode_lowercase(c.name.as_str());
        let ghost before = char_views(countries@);
        countries.push(string_chars(&low));
        assert(char_views(countries@) =~= before.push(unicode_lowercase(c.name@)));
        assert(lowered_all(cn.take(i + 1)) =~= lowered_all(cn.take(i as int)).push(unicode_lowercase(c.name@)));
        push_lowered(&mut clubs, &c.clubs);
        assert(wv.international_countries.take(i + 1).drop_last() =~= wv.international_countries.take(i as int));
        assert(lowered_all(country_club_names(wv.international_countries.take(i + 1))) =~= lowered_all(
            country_club_names(wv.international_countries.take(i as int)),
        ) + lowered_all(string_views(c.clubs@)));
        i += 1;
    }
    assert(wv.international_countries.take(i as int) =~= wv.international_countries);
    assert(cn.take(i as int) =~= cn);
    let ghost after_countries = char_views(countries@);
    let ghost after_clubs = char_views(clubs@);
    let mut j: usize = 0;
    assert(ln.take(0) =~= seq![]);
    assert(after_countries + lowered_all(ln.take(0)) =~= after_countries);
    assert(after_clubs + lowered_all(league_club_names(wv.leagues.take(0))) =~= after_clubs);
    while j < w.leagues.len()
        invariant
            j <= w.leagues@.len(),
            wv == w@,
            ln == wv.leagues.map_values(|l: LeagueModel| l.country),
            char_views(countries@) == after_countries + lowered_all(ln.take(j as int)),
            char_views(clubs@) == after_clubs + lowered_all(league_club_names(wv.leagues.take(j as int))),
        decreases w.leagues@.len() - j,
    {
        let l = &w.leagues[j];
        assert(wv.leagues[j as int] == l@);
        let low = to_unicode_lowercase(l.country.as_str());
        let ghost before = char_views(countries@);
        countries.push(string_chars(&low));
        assert(char_views(countries@) =~= before.push(unicode_lowercase(l.country@)));
        assert(lowered_all(ln.take(j + 1)) =~= lowered_all(ln.take(j as int)).push(unicode_lowercase(l.country@)));
        let ghost clubs_before = char_views(clubs@);
        let mut d: usize = 0;
        let ghost dv = l@.divisions;
        assert(dv.take(0) =~= seq![]);
        assert(clubs_before + lowered_all(division_club_names(dv.take(0))) =~= clubs_before);
        while d < l.divisions.len()
            invariant
                d <= l.divisions@.len(),
                dv == l@.divisions,
                char_views(clubs@) == clubs_before + lowered_all(division_club_names(dv.take(d as int))),
            decreases l.divisions@.len() - d,
        {
            assert(dv[d as int] == l.divisions@[d as int]@);
            push_lowered(&mut clubs, &l.divisions[d].teams);
            assert(dv.take(d + 1).drop_last() =~= dv.take(d as int));
            assert(lowered_all(division_club_names(dv.take(d + 1))) =~= lowered_all(division_club_names(dv.take(d as int)))
                + lowered_all(dv[d as int].teams));
            d += 1;
        }
        assert(dv.take(d as int) =~= dv);
        assert(wv.leagues.take(j + 1).drop_last() =~= wv.leagues.take(j as int));
        assert(lowered_all(league_club_names(wv.leagues.take(j + 1))) =~= lowered_all(league_club_names(wv.leagues.take(j as int)))
            + lowered_all(division_club_names(dv)));
        j += 1;
    }
    assert(wv.leagues.take(j as int) =~= wv.leagues);
    assert(ln.take(j as int) =~= ln);
    assert(lowered_all(world_countries(wv)) =~= lowered_all(cn) + lowered_all(ln));
    assert(lowered_all(world_clubs(wv)) =~= after_clubs + lowered_all(league_club_names(wv.leagues)));
    (countries, clubs)
}

proof fn lemma_neutral_key_indices(w: WorldModel, ps: Seq<Seq<char>>, n: nat)
    requires
        n <= usize::MAX,
    ensures
        forall|i: int| 0 <= i < neutral_keys(w, ps, n).len() ==> (#[trigger] neutral_keys(w, ps, n)[i]).1 < n
            && is_neutral_file(w, ps[neutral_keys(w, ps, n)[i].1 as int]),
    decreases n,
{
    if n > 0 {
        lemma_neutral_key_indices(w, ps, (n - 1) as nat);
        let t = neutral_keys(w, ps, (n - 1) as nat);
        let r = neutral_keys(w, ps, n);
        assert forall|i: int| 0 <= i < r.len() implies (#[trigger] r[i]).1 < n && is_neutral_file(w, ps[r[i].1 as int]) by {
            if i < t.len() {
                assert(r[i] == t[i]);
            }
        }
    }
}

impl World {
    /// The clubs that have a team file among `team_files` (the paths of the
    /// files of the Team folder) but no place in the world, by name in lower
    /// case (see `neutral_clubs_of`).
    pub fn neutral_clubs(&self, team_files: &Vec<String>) -> (r: Vec<String>)
        ensures
            string_views(r@) == neutral_clubs_of(self@, string_views(team_files@)),
    {
        let ghost wv = self@;
        let ghost pv = string_views(team_files@);
        let (countries, clubs) = world_keys(self);
        let mut keyed: Vec<(Vec<char>, usize)> = Vec::new();
        let mut stems: Vec<Vec<char>> = Vec::new();
        assert(keyed_views(keyed@) =~= neutral_keys(wv, pv, 0));
        let mut k: usize = 0;
        while k < team_files.len()
            invariant
                k <= team_files@.len(),
                wv == self@,
                pv == string_views(team_files@),
                char_views(countries@) == lowered_all(world_countries(wv)),
                char_views(clubs@) == lowered_all(world_clubs(wv)),
                keyed_views(keyed@) == neutral_keys(wv, pv, k as nat),
                stems@.len() == k,
                forall|x: int| 0 <= x < k && path_stem(pv[x]) is Some ==> #[trigger] stems@[x]@ == path_stem(pv[x]).unwrap(),
            decreases team_files@.len() - k,
        {
            assert(pv[k as int] == team_files@[k as int]@);
            let path = to_chars(team_files[k].as_str());
            let ghost before = keyed_views(keyed@);
            let stem = stem_of_path(path.as_slice());
            let mut added = false;
            match &stem {
                Some(st) => {
                    if has_text_extension(team_files[k].as_str()) {
                        let low_s = to_unicode_lowercase(from_chars(st.as_slice()).as_str());
                        let low = string_chars(&low_s);
                        if !list_holds(&countries, low.as_slice()) && !list_holds(&clubs, low.as_slice()) {
                            keyed.push((low, k));
                            added = true;
                            assert(keyed_views(keyed@) =~= before.push((unicode_lowercase(st@), k)));
                        }
                    }
                },
                None => {},
            }
            if !added {
                assert(before + seq![] =~= before);
            }
            let s = match stem {
                Some(st) => st,
                None => Vec::new(),
            };
            stems.push(s);
            k += 1;
        }
        let order = sort_by_text_key(&keyed);
        let ghost ov = keyed_views(order@);
        assert(pv.len() == team_files.len());
        proof {
            lemma_neutral_key_indices(wv, pv, pv.len());
            lemma_sorted_by_key_items(neutral_keys(wv, pv, pv.len()));
        }
        let mut out: Vec<String> = Vec::new();
        let mut j: usize = 0;
        while j < order.len()
            invariant
                j <= order@.len(),
                ov == keyed_views(order@),
                ov == sorted_by_key(neutral_keys(wv, pv, pv.len())),
                pv.len() == stems@.len(),
                forall|x: int| 0 <= x < pv.len() && path_stem(pv[x]) is Some ==> #[trigger] stems@[x]@ == path_stem(pv[x]).unwrap(),
                forall|x: int| 0 <= x < ov.len() ==> neutral_keys(wv, pv, pv.len()).contains(#[trigger] ov[x]),
                forall|i: int| 0 <= i < neutral_keys(wv, pv, pv.len()).len() ==> (#[trigger] neutral_keys(wv, pv, pv.len())[i]).1 < pv.len()
                    && is_neutral_file(wv, pv[neutral_keys(wv, pv, pv.len())[i].1 as int]),
                string_views(out@) == ov.take(j as int).map_values(|e: (Seq<char>, usize)| path_stem(pv[e.1 as int]).unwrap()),
            decreases order@.len() - j,
        {
            let idx = order[j].1;
            assert(ov[j as int].1 == idx);
            assert(neutral_keys(wv, pv, pv.len()).contains(ov[j as int]));
            let ghost m = choose|m: int| 0 <= m < neutral_keys(wv, pv, pv.len()).len() && neutral_keys(wv, pv, pv.len())[m] == ov[j as int];
            assert(neutral_keys(wv, pv, pv.len())[m].1 < pv.len());
            assert(is_neutral_file(wv, pv[idx as int]));
            assert(stems@[idx as int]@ == path_stem(pv[idx as int]).unwrap());
            let ghost before = string_views(out@);
            out.push(from_chars(stems[idx].as_slice()));
            assert(string_views(out@) =~= before.push(path_stem(pv[idx as int]).unwrap()));
            assert(ov.take(j + 1).map_values(|e: (Seq<char>, usize)| path_stem(pv[e.1 as int]).unwrap()) =~= ov.take(
                j as int,
            ).map_values(|e: (Seq<char>, usize)| path_stem(pv[e.1 as int]).unwrap()).push(path_stem(pv[idx as int]).unwrap()));
            j += 1;
        }
        assert(ov.take(j as int) =~= ov);
        out
    }
}

// ---------------------------------------------------------------------------
// Countries without a league
// ---------------------------------------------------------------------------

/// Whether a league of the world has the country `name` (up to ASCII case).
pub open spec fn has_league_for(w: WorldModel, name: Seq<char>) -> bool {
    exists|l: int| 0 <= l < w.leagues.len() && eq_ignore_case(#[trigger] w.leagues[l].country, name)
}

/// The indices, among the first `n` country blocks, of the countries that
/// have no league, in order.
pub open spec fn free_countries(w: WorldModel, n: nat) -> Seq<usize>
    decreases n,
{
    if n == 0 {
        seq![]
    } else {
        free_countries(w, (n - 1) as nat) + if has_league_for(w, w.international_countries[n - 1].name) {
            Seq::<usize>::empty()
        } else {
            seq![(n - 1) as usize]
        }
    }
}

/// The country offered for a new league: the selected country block when
/// its country has no league, else the first country without a league, else
/// none (empty).
pub open spec fn offered_country(w: WorldModel, selected: Option<usize>) -> Seq<char> {
    let cs = w.international_countries;
    let free = free_countries(w, cs.len());
    match selected {
        Some(i) if i < cs.len() && !has_league_for(w, cs[i as int].name) => cs[i as int].name,
        _ => if free.len() > 0 {
            cs[free[0] as int].name
        } else {
            seq![]
        },
    }
}

impl World {
    /// Whether a league of the world has the country `name`.
    pub fn has_league_for(&self, name: &str) -> (r: bool)
        ensures
            r == has_league_for(self@, name@),
    {
        let n = to_chars(name);
        let ghost lv = self@.leagues;
        let mut l: usize = 0;
        while l < self.leagues.len()
            invariant
                l <= self.leagues@.len(),
                lv == self@.leagues,
                n@ == name@,
                forall|a: int| 0 <= a < l ==> !eq_ignore_case(#[trigger] lv[a].country, name@),
            decreases self.leagues@.len() - l,
        {
            assert(lv[l as int] == self.leagues@[l as int]@);
            if same_ignoring_case(string_chars(&self.leagues[l].country).as_slice(), n.as_slice()) {
                assert(eq_ignore_case(lv[l as int].country, name@));
                return true;
            }
            l += 1;
        }
        false
    }

    /// The indices of the country blocks whose country has no league.
    pub fn countries_without_league(&self) -> (r: Vec<usize>)
        ensures
            r@ == free_countries(self@, self@.international_countries.len()),
    {
        let ghost w = self@;
        let mut r: Vec<usize> = Vec::new();
        let mut i: usize = 0;
        while i < self.international_countries.len()
            invariant
                i <= self.international_countries@.len(),
                w == self@,
                r@ == free_countries(w, i as nat),
            decreases self.international_countries@.len() - i,
        {
            assert(w.international_countries[i as int] == self.international_countries@[i as int]@);
            if !self.has_league_for(self.international_countries[i].name.as_str()) {
                r.push(i);
            } else {
                assert(r@ + Seq::<usize>::empty() =~= r@);
            }
            i += 1;
        }
        r
    }

    /// The country offered for a new league (see `offered_country`).
    pub fn offered_country(&self, selected: Option<usize>) -> (r: String)
        ensures
            r@ == offered_country(self@, selected),
    {
        let ghost w = self@;
        match selected {
            Some(i) => {
                if i < self.international_countries.len() {
                    assert(w.international_countries[i as int] == self.international_countries@[i as int]@);
                    if !self.has_league_for(self.international_countries[i].name.as_str()) {
                        return copy_string(&self.international_countries[i].name);
                    }
                }
            },
            None => {},
        }
        let free = self.countries_without_league();
        if free.len() > 0 {
            proof {
                lemma_free_in_range(w, w.international_countries.len());
            }
            let j = free[0];
            assert(w.international_countries[j as int] == self.international_countries@[j as int]@);
            copy_string(&self.international_countries[j].name)
        } else {
            String::new()
        }
    }
}

proof fn lemma_free_in_range(w: WorldModel, n: nat)
    requires
        n <= w.international_countries.len(),
    ensures
        forall|k: int| 0 <= k < free_countries(w, n).len() ==> (#[trigger] free_countries(w, n)[k]) < n,
    decreases n,
{
    if n > 0 {
        lemma_free_in_range(w, (n - 1) as nat);
        let t = free_countries(w, (n - 1) as nat);
        let r = free_countries(w, n);
        assert forall|k: int| 0 <= k < r.len() implies (#[trigger] r[k]) < n by {
            if k < t.len() {
                assert(r[k] == t[k]);
            }
        }
    }
}

// ---------------------------------------------------------------------------
// What the editor lists
// ---------------------------------------------------------------------------

/// The name under which a league is listed: the stem of its file, or its
/// country when the path has none.
pub open spec fn listed_name(l: LeagueModel) -> Seq<char> {
    match path_stem(l.path) {
        Some(s) => s,
        None => l.country,
    }
}

/// The first `n` leagues keyed by their listed name in lower case.
pub open spec fn league_keys(ls: Seq<LeagueModel>, n: nat) -> Seq<(Seq<char>, usize)>
    decreases n,
{
    if n == 0 {
        seq![]
    } else {
        league_keys(ls, (n - 1) as nat).push((unicode_lowercase(listed_name(ls[n - 1])), (n - 1) as usize))
    }
}

/// The first `n` country blocks keyed by their name in lower case.
pub open spec fn country_keys(cs: Seq<CountryModel>, n: nat) -> Seq<(Seq<char>, usize)>
    decreases n,
{
    if n == 0 {
        seq![]
    } else {
        country_keys(cs, (n - 1) as nat).push((unicode_lowercase(cs[n - 1].name), (n - 1) as usize))
    }
}

/// The indices of keyed items, in order.
pub open spec fn key_indices(s: Seq<(Seq<char>, usize)>) -> Seq<usize> {
    s.map_values(|e: (Seq<char>, usize)| e.1)
}

pub(crate) fn indices_of(v: &Vec<(Vec<char>, usize)>) -> (r: Vec<usize>)
    ensures
        r@ == key_indices(keyed_views(v@)),
{
    let mut r: Vec<usize> = Vec::new();
    let mut i: usize = 0;
    while i < v.len()
        invariant
            i <= v@.len(),
            r@ == key_indices(keyed_views(v@)).take(i as int),
        decreases v@.len() - i,
    {
        r.push(v[i].1);
        i += 1;
        assert(r@ =~= key_indices(keyed_views(v@)).take(i as int));
    }
    assert(key_indices(keyed_views(v@)).take(i as int) =~= key_indices(keyed_views(v@)));
    r
}

impl World {
    /// The leagues in the order in which they are listed: by listed name in
    /// lower case, leagues with the same key in their own order.
    pub fn league_order(&self) -> (r: Vec<usize>)
        ensures
            r@ == key_indices(sorted_by_key(league_keys(self@.leagues, self@.leagues.len()))),
    {
        let ghost lv = self@.leagues;
        let mut keyed: Vec<(Vec<char>, usize)> = Vec::new();
        let mut i: usize = 0;
        assert(keyed_views(keyed@) =~= league_keys(lv, 0));
        while i < self.leagues.len()
            invariant
                i <= self.leagues@.len(),
                lv == self@.leagues,
                keyed_views(keyed@) == league_keys(lv, i as nat),
            decreases self.leagues@.len() - i,
        {
            let l = &self.leagues[i];
            assert(lv[i as int] == l@);
            let p = string_chars(&l.path);
            let name = match stem_of_path(p.as_slice()) {
                Some(st) => st,
                None => string_chars(&l.country),
            };
            let low = to_unicode_lowercase(from_chars(name.as_slice()).as_str());
            let ghost before = keyed_views(keyed@);
            keyed.push((string_chars(&low), i));
            assert(keyed_views(keyed@) =~= before.push((unicode_lowercase(listed_name(lv[i as int])), i)));
            i += 1;
        }
        indices_of(&sort_by_text_key(&keyed))
    }

    /// The country blocks in the order in which they are listed: by name in
    /// lower case, blocks with the same key in their own order.
    pub fn country_order(&self) -> (r: Vec<usize>)
        ensures
            r@ == key_indices(sorted_by_key(country_keys(self@.international_countries, self@.international_countries.len()))),
    {
        let ghost cv = self@.international_countries;
        let mut keyed: Vec<(Vec<char>, usize)> = Vec::new();
        let mut i: usize = 0;
        assert(keyed_views(keyed@) =~= country_keys(cv, 0));
        while i < self.international_countries.len()
            invariant
                i <= self.international_countries@.len(),
                cv == self@.international_countries,
                keyed_views(keyed@) == country_keys(cv, i as nat),
            decreases self.international_countries@.len() - i,
        {
            let c = &self.international_countries[i];
            assert(cv[i as int] == c@);
            let low = to_unicode_lowercase(c.name.as_str());
            let ghost before = keyed_views(keyed@);
            keyed.push((string_chars(&low), i));
            assert(keyed_views(keyed@) =~= before.push((unicode_lowercase(cv[i as int].name), i)));
            i += 1;
        }
        indices_of(&sort_by_text_key(&keyed))
    }

    /// The first country block named `name` up to ASCII case.
    pub fn country_block_for(&self, name: &str) -> (r: Option<usize>)
        ensures
            match r {
                Some(i) => first_named(self@.international_countries, name@) == Some(i as nat),
                None => first_named(self@.international_countries, name@) is None,
            },
    {
        let n = to_chars(name);
        let (_, first) = countries_named(&self.international_countries, n.as_slice());
        first
    }
}

/// The reputation that a team without a file gets: that of the first
/// division of its league that lists it, else 10; for a club of a country
/// without a league, that of its country block, else 5.
pub open spec fn default_reputation(w: WorldModel, league: Option<usize>, country: Option<usize>, team: Seq<char>) -> u32 {
    match league {
        Some(li) if li < w.leagues.len() => match first_listing(w.leagues[li as int].divisions, team) {
            Some(d) => match w.leagues[li as int].divisions[d as int].reputation {
                Some(r) => r,
                None => 10,
            },
            None => 10,
        },
        _ => match country {
            Some(ci) if ci < w.international_countries.len() => match w.international_countries[ci as int].reputation {
                Some(r) => r,
                None => 5,
            },
            _ => 5,
        },
    }
}

/// The first division that lists the club `team`.
pub open spec fn first_listing(ds: Seq<DivisionModel>, team: Seq<char>) -> Option<nat>
    decreases ds.len(),
{
    if ds.len() == 0 {
        None
    } else if ds[0].teams.contains(team) {
        Some(0)
    } else {
        match first_listing(ds.drop_first(), team) {
            Some(i) => Some(i + 1),
            None => None,
        }
    }
}

proof fn lemma_first_listing(ds: Seq<DivisionModel>, team: Seq<char>, i: int)
    requires
        0 <= i <= ds.len(),
        forall|j: int| 0 <= j < i ==> !(#[trigger] ds[j]).teams.contains(team),
    ensures
        i < ds.len() && ds[i].teams.contains(team) ==> first_listing(ds, team) == Some(i as nat),
        i == ds.len() ==> first_listing(ds, team) is None,
    decreases i,
{
    if i > 0 {
        assert forall|j: int| 0 <= j < i - 1 implies !(#[trigger] ds.drop_first()[j]).teams.contains(team) by {
            assert(ds.drop_first()[j] == ds[j + 1]);
        }
        if i < ds.len() {
            assert(ds.drop_first()[i - 1] == ds[i]);
        }
        lemma_first_listing(ds.drop_first(), team, i - 1);
    }
}

impl World {
    /// The reputation that a team without a file gets (see
    /// `default_reputation`).
    pub fn default_reputation(&self, league: Option<usize>, country: Option<usize>, team: &str) -> (r: u32)
        ensures
            r == default_reputation(self@, league, country, team@),
    {
        let t = to_chars(team);
        match league {
            Some(li) => {
                if li < self.leagues.len() {
                    let l = &self.leagues[li];
                    assert(self@.leagues[li as int] == l@);
                    let ghost dv = l@.divisions;
                    let mut d: usize = 0;
                    while d < l.divisions.len()
                        invariant
                            d <= l.divisions@.len(),
                            dv == l@.divisions,
                            league == Some(li),
                            li < self@.leagues.len(),
                            self@.leagues[li as int].divisions == dv,
                            t@ == team@,
                            forall|j: int| 0 <= j < d ==> !(#[trigger] dv[j]).teams.contains(team@),
                        decreases l.divisions@.len() - d,
                    {
                        assert(dv[d as int] == l.divisions@[d as int]@);
                        let teams = &l.divisions[d].teams;
                        let mut k: usize = 0;
                        let mut found = false;
                        while k < teams.len()
                            invariant
                                k <= teams@.len(),
                                d < l.divisions@.len(),
                                dv == l@.divisions,
                                league == Some(li),
                                li < self@.leagues.len(),
                                self@.leagues[li as int].divisions == dv,
                                dv[d as int].teams == string_views(teams@),
                                t@ == team@,
                                forall|j: int| 0 <= j < d ==> !(#[trigger] dv[j]).teams.contains(team@),
                                found == exists|x: int| 0 <= x < k && dv[d as int].teams[x] == team@,
                            decreases teams@.len() - k,
                        {
                            assert(dv[d as int].teams[k as int] == teams@[k as int]@);
                            if same_chars(string_chars(&teams[k]).as_slice(), t.as_slice()) {
                                found = true;
                            }
                            k += 1;
                        }
                        if found {
                            proof {
                                let x = choose|x: int| 0 <= x < k && dv[d as int].teams[x] == team@;
                                assert(dv[d as int].teams.contains(team@));
                                lemma_first_listing(dv, team@, d as int);
                            }
                            assert(dv[d as int] == l.divisions@[d as int]@);
                            assert(self@.leagues[li as int].divisions == dv);
                            return match l.divisions[d].reputation {
                                Some(r) => r,
                                None => 10,
                            };
                        }
                        assert(!dv[d as int].teams.contains(team@));
                        d += 1;
                    }
                    proof {
                        lemma_first_listing(dv, team@, d as int);
                    }
                    return 10;
                }
            },
            None => {},
        }
        match country {
            Some(ci) => {
                if ci < self.international_countries.len() {
                    assert(self@.international_countries[ci as int] == self.international_countries@[ci as int]@);
                    match self.international_countries[ci].reputation {
                        Some(r) => r,
                        None => 5,
                    }
                } else {
                    5
                }
            },
            None => 5,
        }
    }
}

// ---------------------------------------------------------------------------
// Laws of the world's edits
// ---------------------------------------------------------------------------

proof fn lemma_max_level_index(ds: Seq<DivisionModel>, n: nat)
    requires
        n <= ds.len(),
    ensures
        n == 0 ==> max_level_index(ds, n) is None,
        n > 0 ==> (max_level_index(ds, n) matches Some(k) && k < n && forall|j: int|
            0 <= j < n ==> level_le(#[trigger] ds[j].level, ds[k as int].level)),
    decreases n,
{
    if n > 0 {
        lemma_max_level_index(ds, (n - 1) as nat);
    }
}

proof fn lemma_all_levels(ds: Seq<DivisionModel>)
    ensures
        some_level_count(ds) <= ds.len(),
        some_level_count(ds) == ds.len() ==> forall|i: int| 0 <= i < ds.len() ==> (#[trigger] ds[i]).level is Some,
    decreases ds.len(),
{
    if ds.len() > 0 {
        lemma_all_levels(ds.drop_last());
        if some_level_count(ds) == ds.len() {
            assert forall|i: int| 0 <= i < ds.len() implies (#[trigger] ds[i]).level is Some by {
                if i < ds.len() - 1 {
                    assert(ds.drop_last()[i] == ds[i]);
                }
            }
        }
    }
}

/// Among divisions whose levels are all present and different, a division
/// at the greatest level is the one that `max_level_index` picks.
proof fn lemma_unique_top(ds: Seq<DivisionModel>, k: int)
    requires
        0 <= k < ds.len(),
        forall|i: int| 0 <= i < ds.len() ==> (#[trigger] ds[i]).level is Some,
        forall|i: int, j: int| 0 <= i < j < ds.len() ==> #[trigger] ds[i].level != #[trigger] ds[j].level,
        forall|j: int| 0 <= j < ds.len() ==> level_le(#[trigger] ds[j].level, ds[k].level),
    ensures
        max_level_index(ds, ds.len()) == Some(k as nat),
{
    lemma_max_level_index(ds, ds.len());
    let m = max_level_index(ds, ds.len())->Some_0 as int;
    assert(level_le(ds[m].level, ds[k].level));
    assert(level_le(ds[k].level, ds[m].level));
    if m != k {
        if m < k {
            assert(ds[m].level != ds[k].level);
        } else {
            assert(ds[k].level != ds[m].level);
        }
    }
}

/// Removing the last division of a league leaves the league closed at the
/// bottom: the division at the greatest remaining level relegates no club,
/// and every other remaining division is as it was.
pub proof fn law_removal_closes_the_bottom(w: WorldModel, li: int, index: int, delete: bool)
    requires
        0 <= li,
        0 <= index,
        removable(w, li, index),
        w.leagues[li].divisions.len() <= u32::MAX,
    ensures
        ({
            let before = w.leagues[li].divisions.remove(index);
            let after = with_division_removed(w, li, index, delete).leagues[li].divisions;
            &&& after.len() == before.len()
            &&& forall|k: int|
                0 <= k < after.len() && (forall|j: int| 0 <= j < after.len() ==> level_le(#[trigger] after[j].level, after[k].level))
                    ==> (#[trigger] after[k]).relegations == Some(0u32)
            &&& forall|k: int|
                0 <= k < after.len() && !(forall|j: int| 0 <= j < after.len() ==> level_le(#[trigger] after[j].level, after[k].level))
                    ==> #[trigger] after[k] == before[k]
        }),
{
    let ds = w.leagues[li].divisions;
    let ds1 = ds.remove(index);
    assert((ds.len() as u32) as nat == ds.len());
    lemma_all_levels(ds);
    assert(forall|i: int| 0 <= i < ds.len() ==> (#[trigger] ds[i]).level is Some);
    assert(forall|i: int| 0 <= i < ds1.len() ==> (#[trigger] ds1[i]).level is Some) by {
        assert forall|i: int| 0 <= i < ds1.len() implies (#[trigger] ds1[i]).level is Some by {
            if i < index {
                assert(ds1[i] == ds[i]);
            } else {
                assert(ds1[i] == ds[i + 1]);
            }
        }
    }
    assert forall|i: int, j: int| 0 <= i < j < ds1.len() implies #[trigger] ds1[i].level != #[trigger] ds1[j].level by {
        let a = if i < index { i } else { i + 1 };
        let b = if j < index { j } else { j + 1 };
        assert(ds1[i] == ds[a] && ds1[j] == ds[b]);
        assert(a < b);
        assert(ds[a].level is Some);
    }
    lemma_max_level_index(ds1, ds1.len());
    let m = max_level_index(ds1, ds1.len())->Some_0 as int;
    let ds2 = ds1.update(m, DivisionModel { relegations: Some(0), ..ds1[m] });
    let after = with_division_removed(w, li, index, delete).leagues[li].divisions;
    assert(after == ds2);
    assert forall|k: int|
        0 <= k < after.len() && (forall|j: int| 0 <= j < after.len() ==> level_le(#[trigger] after[j].level, after[k].level))
        implies (#[trigger] after[k]).relegations == Some(0u32) by {
        if k != m {
            assert forall|j: int| 0 <= j < ds1.len() implies level_le(#[trigger] ds1[j].level, ds1[k].level) by {
                assert(level_le(after[j].level, after[k].level));
                if j == m {
                    assert(after[j].level == ds1[j].level);
                } else {
                    assert(after[j] == ds1[j]);
                }
            }
            lemma_unique_top(ds1, k);
        }
    }
    assert forall|k: int|
        0 <= k < after.len() && !(forall|j: int| 0 <= j < after.len() ==> level_le(#[trigger] after[j].level, after[k].level))
        implies #[trigger] after[k] == ds1[k] by {
        if k == m {
            assert forall|j: int| 0 <= j < after.len() implies level_le(#[trigger] after[j].level, after[k].level) by {
                if j != m {
                    assert(after[j] == ds1[j]);
                }
            }
        }
    }
}

/// A new last division takes over the passage above it: its promotions are
/// the relegations of the division at the greatest level before it (none
/// counts as 0), it is the next level, and it relegates no club.
pub proof fn law_added_division_matches_the_one_above(w: WorldModel, li: int, name: Seq<char>, teams: Seq<Seq<char>>)
    requires
        add_division_check(w, li, name, teams) is Ok,
        0 <= li,
    ensures
        ({
            let before = w.leagues[li].divisions;
            let after = with_division_added(w, li, name, teams).leagues[li].divisions;
            &&& after.len() == before.len() + 1
            &&& after.drop_last() == before
            &&& after.last().level == Some((before.len() + 1) as u32)
            &&& after.last().relegations == Some(0u32)
            &&& before.len() == 0 ==> after.last().promotions == Some(0u32)
            &&& forall|k: int|
                0 <= k < before.len() && (forall|j: int| 0 <= j < before.len() ==> level_le(#[trigger] before[j].level, before[k].level))
                    ==> after.last().promotions == Some(
                    match (#[trigger] before[k]).relegations {
                        Some(v) => v,
                        None => 0u32,
                    },
                )
        }),
{
    let ds = w.leagues[li].divisions;
    let after = with_division_added(w, li, name, teams).leagues[li].divisions;
    assert(after.drop_last() =~= ds);
    lemma_all_levels(ds);
    lemma_max_level_index(ds, ds.len());
    assert forall|k: int|
        0 <= k < ds.len() && (forall|j: int| 0 <= j < ds.len() ==> level_le(#[trigger] ds[j].level, ds[k].level))
        implies after.last().promotions == Some(
        match (#[trigger] ds[k]).relegations {
            Some(v) => v,
            None => 0u32,
        },
    ) by {
        lemma_unique_top(ds, k);
    }
}

/// A new league's division has the reputation of its country's block, when
/// the block gives one, and 5 otherwise.
pub proof fn law_created_league_takes_the_block_reputation(
    w: WorldModel,
    country: Seq<char>,
    division_name: Seq<char>,
    extra: Seq<Seq<char>>,
)
    ensures
        ({
            let d = created_league(w, country, division_name, extra).divisions[0];
            &&& (first_named(w.international_countries, country) matches Some(i) && w.international_countries[i as int].reputation
                is Some) ==> d.reputation == w.international_countries[first_named(w.international_countries, country)->Some_0 as int].reputation
            &&& (first_named(w.international_countries, country) matches Some(i) ==> w.international_countries[i as int].reputation
                is None) ==> d.reputation == Some(5u32)
        }),
{
}


proof fn lemma_clubs_check_distinct(teams: Seq<Seq<char>>, n: nat)
    requires
        n <= teams.len(),
        clubs_check(teams, n) is Ok,
    ensures
        forall|i: int, j: int| 0 <= i < j < n ==> unicode_lowercase(#[trigger] teams[i]) != unicode_lowercase(
            #[trigger] teams[j],
        ),
    decreases n,
{
    if n > 0 {
        lemma_clubs_check_distinct(teams, (n - 1) as nat);
        assert forall|i: int, j: int| 0 <= i < j < n implies unicode_lowercase(#[trigger] teams[i]) != unicode_lowercase(
            #[trigger] teams[j],
        ) by {
            if j == n - 1 && unicode_lowercase(teams[i]) == unicode_lowercase(teams[j]) {
                assert(unicode_lowercase(teams[i]) == unicode_lowercase(teams[n - 1]));
            }
        }
    }
}

/// A new league takes the clubs of its country's block once: when it can be
/// created, its division holds every club of the block, and no two of its
/// clubs have the same lower case.
pub proof fn law_created_league_takes_the_block_once(
    w: WorldModel,
    country: Seq<char>,
    division_name: Seq<char>,
    extra: Seq<Seq<char>>,
    on_disk: bool,
)
    requires
        create_check(w, country, division_name, extra, on_disk) is Ok,
    ensures
        ({
            let teams = created_league(w, country, division_name, extra).divisions[0].teams;
            &&& forall|i: int, j: int| 0 <= i < j < teams.len() ==> unicode_lowercase(#[trigger] teams[i])
                != unicode_lowercase(#[trigger] teams[j])
            &&& first_named(w.international_countries, country) matches Some(b) ==> forall|k: int|
                0 <= k < w.international_countries[b as int].clubs.len() ==> teams.contains(
                    #[trigger] w.international_countries[b as int].clubs[k],
                )
        }),
{
    let teams = new_league_teams(w, country, extra);
    lemma_clubs_check_distinct(teams, teams.len());
    if let Some(b) = first_named(w.international_countries, country) {
        lemma_first_named_in_range(w.international_countries, country);
        let clubs = w.international_countries[b as int].clubs;
        assert forall|k: int| 0 <= k < clubs.len() implies teams.contains(#[trigger] clubs[k]) by {
            assert(teams[k] == clubs[k]);
        }
    }
}


/// A club that a country block still names is never marked for deletion
/// when clubs are released: the international file keeps it alive.
pub proof fn law_release_keeps_named_clubs(w: WorldModel, names: Set<Seq<char>>, delete: bool, club: Seq<char>)
    requires
        names.contains(club),
        countries_hold_club(w.international_countries, club),
    ensures
        !released(w, names, delete).deleted_clubs.contains(club),
        released(w, names, delete).retained_clubs.contains(club),
{
}

/// Releasing clubs marks each released club as kept or as deleted, never
/// both, and leaves a club that was neither kept nor deleted, and is not
/// released, as it was; without deletion no club becomes deleted.
pub proof fn law_release_sorts_clubs(w: WorldModel, names: Set<Seq<char>>, delete: bool, club: Seq<char>)
    ensures
        names.contains(club) ==> (released(w, names, delete).retained_clubs.contains(club) != released(
            w,
            names,
            delete,
        ).deleted_clubs.contains(club)),
        !names.contains(club) ==> released(w, names, delete).retained_clubs.contains(club)
            == w.retained_clubs.contains(club) && released(w, names, delete).deleted_clubs.contains(club)
            == w.deleted_clubs.contains(club),
        !delete ==> (released(w, names, delete).deleted_clubs.contains(club) ==> w.deleted_clubs.contains(club)),
        released(w, names, delete).leagues == w.leagues,
        released(w, names, delete).international_countries == w.international_countries,
{
}

proof fn lemma_same_names(a: Seq<CountryModel>, b: Seq<CountryModel>, name: Seq<char>)
    requires
        a.len() == b.len(),
        forall|i: int| 0 <= i < a.len() ==> (#[trigger] a[i]).name == b[i].name,
    ensures
        named_count(a, name) == named_count(b, name),
        first_named(a, name) == first_named(b, name),
    decreases a.len(),
{
    if a.len() > 0 {
        assert(a.last() == a[a.len() - 1]);
        assert(b.last() == b[b.len() - 1]);
        assert(a[0].name == b[0].name);
        assert forall|i: int| 0 <= i < a.drop_last().len() implies (#[trigger] a.drop_last()[i]).name == b.drop_last()[i].name by {
            assert(a.drop_last()[i] == a[i]);
            assert(b.drop_last()[i] == b[i]);
        }
        assert forall|i: int| 0 <= i < a.drop_first().len() implies (#[trigger] a.drop_first()[i]).name == b.drop_first()[i].name by {
            assert(a.drop_first()[i] == a[i + 1]);
            assert(b.drop_first()[i] == b[i + 1]);
        }
        lemma_same_names(a.drop_last(), b.drop_last(), name);
        lemma_same_names(a.drop_first(), b.drop_first(), name);
    }
}

proof fn lemma_first_named_in_range(cs: Seq<CountryModel>, name: Seq<char>)
    ensures
        first_named(cs, name) matches Some(i) ==> i < cs.len(),
    decreases cs.len(),
{
    if cs.len() > 0 && !eq_ignore_case(cs[0].name, name) {
        lemma_first_named_in_range(cs.drop_first(), name);
    }
}

/// Synchronising the international file with a league a second time
/// changes nothing more: the country's clubs are already the first clubs
/// of the league's top division.
pub proof fn law_sync_is_idempotent(w: WorldModel, li: int, cs: Seq<CountryModel>)
    requires
        sync_outcome(w, li) == Ok::<Seq<CountryModel>, Seq<char>>(cs),
    ensures
        sync_outcome(WorldModel { international_countries: cs, ..w }, li) == Ok::<Seq<CountryModel>, Seq<char>>(cs),
{
    let l = w.leagues[li];
    let old_cs = w.international_countries;
    match first_named(old_cs, l.country) {
        None => {},
        Some(ci) => {
            lemma_first_named_in_range(old_cs, l.country);
            assert(cs.len() == old_cs.len());
            assert forall|i: int| 0 <= i < cs.len() implies (#[trigger] cs[i]).name == old_cs[i].name by {}
            lemma_same_names(cs, old_cs, l.country);
            let ti = first_with_level(l.divisions, Some(1u32))->0;
            let k = old_cs[ci as int].clubs.len();
            assert(cs[ci as int].clubs == l.divisions[ti as int].teams.take(k as int));
            assert(cs[ci as int].clubs.len() == k);
            assert(cs.update(ci as int, CountryModel { clubs: l.divisions[ti as int].teams.take(k as int), ..cs[ci as int] }) =~= cs);
        },
    }
}

} // verus!
