//! The state of the windows that change the structure of the leagues.
use vstd::prelude::*;
use crate::text::{char_views, from_chars, lines, split_lines, string_views, to_chars, trim, trimmed};

verus! {

/// A league or a division being created.
pub struct Creation {
    pub kind: CreationKind,
    pub country: String,
    pub division_name: String,
    pub clubs: String,
}

/// What is being created: a new league, or a division of an existing one.
#[derive(PartialEq, Eq, Structural)]
pub enum CreationKind {
    League,
    Division { league_index: usize },
}

impl Default for CreationKind {
    fn default() -> (r: CreationKind)
        ensures
            r == CreationKind::League,
    {
        CreationKind::League
    }
}

impl Default for Creation {
    fn default() -> (r: Creation)
        ensures
            r.kind == CreationKind::League,
            r.country@.len() == 0,
            r.division_name@.len() == 0,
            r.clubs@.len() == 0,
    {
        Creation { kind: CreationKind::League, country: String::new(), division_name: String::new(), clubs: String::new() }
    }
}

/// A removal waiting for confirmation.
pub enum Removal {
    Division { league_index: usize, division_index: usize, delete_clubs: bool },
    League { league_index: usize, delete_clubs: bool },
    Club { league_index: usize, division_index: usize, club_index: usize, delete_club: bool },
}

/// A club being added to a division.
pub struct ClubAddition {
    pub league_index: usize,
    pub division_index: usize,
    pub source: ClubSource,
    pub club_name: String,
}

/// Where an added club comes from: an existing club with no league, or a
/// new one.
#[derive(PartialEq, Eq, Structural)]
pub enum ClubSource {
    Neutral,
    New,
}

impl Default for ClubSource {
    fn default() -> (r: ClubSource)
        ensures
            r == ClubSource::Neutral,
    {
        ClubSource::Neutral
    }
}

/// The clubs named by the lines `ls` of the creation window: each line
/// trimmed, blank lines left out.
pub open spec fn club_entries(ls: Seq<Seq<char>>) -> Seq<Seq<char>>
    decreases ls.len(),
{
    if ls.len() == 0 {
        seq![]
    } else if trim(ls.last()).len() == 0 {
        club_entries(ls.drop_last())
    } else {
        club_entries(ls.drop_last()).push(trim(ls.last()))
    }
}

impl Creation {
    /// The clubs written in the window, one per line (see `club_entries`).
    pub fn club_list(&self) -> (r: Vec<String>)
        ensures
            string_views(r@) == club_entries(lines(self.clubs@)),
    {
        let text = to_chars(self.clubs.as_str());
        let ls = split_lines(text.as_slice());
        let ghost lv = char_views(ls@);
        let mut r: Vec<String> = Vec::new();
        let mut i: usize = 0;
        assert(string_views(r@) =~= club_entries(lv.take(0)));
        while i < ls.len()
            invariant
                i <= ls@.len(),
                lv == char_views(ls@),
                lv == lines(self.clubs@),
                string_views(r@) == club_entries(lv.take(i as int)),
            decreases ls@.len() - i,
        {
            let ghost t = lv.take(i + 1);
            assert(t.drop_last() =~= lv.take(i as int));
            assert(t.last() == ls@[i as int]@);
            let club = trimmed(ls[i].as_slice());
            if club.len() > 0 {
                let ghost before = string_views(r@);
                r.push(from_chars(club.as_slice()));
                assert(string_views(r@) =~= before.push(trim(t.last())));
            }
            i += 1;
        }
        assert(lv.take(i as int) =~= lv);
        r
    }
}

} // verus!
