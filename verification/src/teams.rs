//! Team and player files: kits, reputation and roster of a team, the
//! details of a player, the colour table, and the text written back for
//! them with the rest of each file kept as it was.
use vstd::prelude::*;
use crate::world_edit::{default_reputation};
use vstd::utf8::{encode_utf8, valid_utf8};
use crate::league_save::{holds_crlf, newline_of};
use crate::world_save::{bytes_view, same_bytes};
use crate::encoding::{decode_text, decoded_text, utf8_bytes_like, utf8_text, windows_1252_encode, windows_1252_encoded};
use crate::leagues::{literal};
use crate::text::{ascii_lower, is_ws, lemma_decimal_reads_back, lemma_parse_decimal, lemma_words_two, trim_end, trim_start, body_len, char_lowercase, char_views, chars_are, copy_string, decimal, eq_ignore_case, find_char, find_first, first_in, first_is, from_chars, lemma_text_lt_total, lemma_text_lt_trans, line_body, line_ending, lines, list_holds, lower, lowercase_of, lowered, parse_number, parse_u32, pieces, push_all, push_decimal, push_str, same_chars, same_ignoring_case, split_lines, split_pieces, split_words, starts_with, starts_with_any, string_chars, string_views, sub_chars, text_less, text_lt, to_chars, to_unicode_lowercase, trim, trimmed, unicode_lowercase, words};

verus! {

// ---------------------------------------------------------------------------
// Kits
// ---------------------------------------------------------------------------

/// The name of kit part `i`, in the order of the team file: shirt,
/// stripes, sleeves, shorts, socks.
pub open spec fn kit_part(i: int) -> Seq<char> {
    if i == 0 {
        "shirt"@
    } else if i == 1 {
        "stripes"@
    } else if i == 2 {
        "sleeves"@
    } else if i == 3 {
        "shorts"@
    } else {
        "socks"@
    }
}

/// The names of the five kit parts.
pub fn kit_parts() -> (r: [&'static str; 5])
    ensures
        forall|i: int| 0 <= i < 5 ==> #[trigger] r@[i]@ == kit_part(i),
{
    ["shirt", "stripes", "sleeves", "shorts", "socks"]
}

/// The first kit part whose name is `part` up to ASCII case.
pub open spec fn kit_part_index(part: Seq<char>) -> Option<int> {
    if eq_ignore_case(kit_part(0), part) {
        Some(0)
    } else if eq_ignore_case(kit_part(1), part) {
        Some(1)
    } else if eq_ignore_case(kit_part(2), part) {
        Some(2)
    } else if eq_ignore_case(kit_part(3), part) {
        Some(3)
    } else if eq_ignore_case(kit_part(4), part) {
        Some(4)
    } else {
        None
    }
}

/// The index of the kit part named `part` (see `kit_part_index`).
fn find_kit_part(part: &[char]) -> (r: Option<usize>)
    ensures
        r == (match kit_part_index(part@) {
            Some(i) => Some(i as usize),
            None => None::<usize>,
        }),
{
    let names = kit_parts();
    let mut i: usize = 0;
    while i < 5
        invariant
            i <= 5,
            forall|j: int| 0 <= j < 5 ==> #[trigger] names@[j]@ == kit_part(j),
            forall|j: int| 0 <= j < i ==> !eq_ignore_case(#[trigger] kit_part(j), part@),
        decreases 5 - i,
    {
        let name = to_chars(names[i]);
        assert(name@ == kit_part(i as int));
        if same_ignoring_case(name.as_slice(), part) {
            return Some(i);
        }
        i += 1;
    }
    None
}

/// A team as the editor holds it: whether its file exists, its reputation,
/// its three kits of five colours, the bytes read and its roster lines.
#[derive(Clone)]
pub struct TeamProfile {
    pub file_exists: bool,
    pub reputation: u32,
    pub kits: [[String; 5]; 3],
    pub source_bytes: Option<Vec<u8>>,
    pub players: Vec<String>,
}

/// What a team profile holds, as plain values.
pub struct TeamModel {
    pub file_exists: bool,
    pub reputation: u32,
    pub kits: Seq<Seq<Seq<char>>>,
    pub source_bytes: Option<Seq<u8>>,
    pub players: Seq<Seq<char>>,
}

/// The colours of three kits, as plain values.
pub open spec fn kit_views(kits: [[String; 5]; 3]) -> Seq<Seq<Seq<char>>> {
    kits@.map_values(|kit: [String; 5]| string_views(kit@))
}

impl View for TeamProfile {
    type V = TeamModel;

    open spec fn view(&self) -> TeamModel {
        TeamModel {
            file_exists: self.file_exists,
            reputation: self.reputation,
            kits: kit_views(self.kits),
            source_bytes: bytes_view(self.source_bytes),
            players: string_views(self.players@),
        }
    }
}

/// Three kits that are white all over.
pub open spec fn white_kits() -> Seq<Seq<Seq<char>>> {
    Seq::new(3, |k: int| Seq::new(5, |p: int| "white"@))
}

/// The team of a club without a file: white kits and the given reputation.
pub open spec fn default_team(reputation: u32) -> TeamModel {
    TeamModel { file_exists: false, reputation, kits: white_kits(), source_bytes: None, players: seq![] }
}

fn white_kit() -> (r: [String; 5])
    ensures
        string_views(r@) == Seq::new(5, |p: int| "white"@),
{
    let r = [literal("white"), literal("white"), literal("white"), literal("white"), literal("white")];
    assert(string_views(r@) =~= Seq::new(5, |p: int| "white"@));
    r
}

impl TeamProfile {
    /// A team without a file: white kits, no roster, the given reputation.
    pub fn defaults(reputation: u32) -> (r: TeamProfile)
        ensures
            r@ == default_team(reputation),
    {
        let kits = [white_kit(), white_kit(), white_kit()];
        assert(kit_views(kits) =~= white_kits());
        let players: Vec<String> = Vec::new();
        assert(string_views(players@) =~= seq![]);
        TeamProfile { file_exists: false, reputation, kits, source_bytes: None, players }
    }
}

// ---------------------------------------------------------------------------
// Reading a team file
// ---------------------------------------------------------------------------

/// What the reader of a team file has found so far.
pub struct TeamScan {
    pub in_details: bool,
    pub reputation: u32,
    pub kits: Seq<Seq<Seq<char>>>,
    pub players: Seq<Seq<char>>,
}

/// The characters that start an instruction or a comment of a team file.
pub open spec fn team_marks() -> Seq<char> {
    seq!['!', '#', ';']
}

/// The kit instruction `! number part colour` as (kit, part, colour), when
/// the number is 1 to 3 and the part is a kit part.
pub open spec fn kit_instruction(f: Seq<Seq<char>>) -> Option<(int, int, Seq<char>)> {
    if f.len() == 3 {
        match (parse_u32(f[0]), kit_part_index(f[1])) {
            (Some(n), Some(p)) => if 1 <= n <= 3 {
                Some((n - 1, p, f[2]))
            } else {
                None
            },
            _ => None,
        }
    } else {
        None
    }
}

/// The reader after one line: a `$` line starts the details, a roster line
/// before them is a player, `! reputation n` sets the reputation and
/// `! k part colour` a kit colour.
pub open spec fn team_line_step(st: TeamScan, raw: Seq<char>) -> TeamScan {
    let line = trim(raw);
    if starts_with(line, '$') {
        TeamScan { in_details: true, ..st }
    } else if !st.in_details && line.len() > 0 && !starts_with_any(line, team_marks()) {
        TeamScan { players: st.players.push(line), ..st }
    } else if starts_with(line, '!') {
        let f = words(line.drop_first());
        if f.len() == 2 && f[0] == "reputation"@ {
            match parse_u32(f[1]) {
                Some(v) => TeamScan { reputation: v, ..st },
                None => st,
            }
        } else {
            match kit_instruction(f) {
                Some((k, p, colour)) => TeamScan { kits: st.kits.update(k, st.kits[k].update(p, colour)), ..st },
                None => st,
            }
        }
    } else {
        st
    }
}

/// The reader after the given lines.
pub open spec fn team_scan(ls: Seq<Seq<char>>, start: TeamScan) -> TeamScan
    decreases ls.len(),
{
    if ls.len() == 0 {
        start
    } else {
        team_line_step(team_scan(ls.drop_last(), start), ls.last())
    }
}

/// The team read from the bytes of its file, starting from white kits and
/// the reputation `reputation`.
pub open spec fn team_from_bytes(bytes: Seq<u8>, reputation: u32) -> TeamModel {
    let st = team_scan(
        lines(decoded_text(bytes)),
        TeamScan { in_details: false, reputation, kits: white_kits(), players: seq![] },
    );
    TeamModel {
        file_exists: true,
        reputation: st.reputation,
        kits: st.kits,
        source_bytes: Some(bytes),
        players: st.players,
    }
}

impl TeamProfile {
    spec fn scan_view(&self, in_details: bool) -> TeamScan {
        TeamScan {
            in_details,
            reputation: self.reputation,
            kits: kit_views(self.kits),
            players: string_views(self.players@),
        }
    }

    fn read_line(&mut self, in_details: &mut bool, raw: &[char])
        ensures
            final(self).scan_view(*final(in_details)) == team_line_step(old(self).scan_view(*old(in_details)), raw@),
            final(self).file_exists == old(self).file_exists,
            bytes_view(final(self).source_bytes) == bytes_view(old(self).source_bytes),
    {
        let line = trimmed(raw);
        if first_is(line.as_slice(), '$') {
            *in_details = true;
            return;
        }
        assert(team_marks() =~= ['!', '#', ';']@);
        if !*in_details && line.len() > 0 && !first_in(line.as_slice(), &['!', '#', ';']) {
            let ghost before = string_views(self.players@);
            self.players.push(from_chars(line.as_slice()));
            assert(string_views(self.players@) =~= before.push(line@));
            return;
        }
        if !first_is(line.as_slice(), '!') {
            return;
        }
        let rest = sub_chars(line.as_slice(), 1, line.len());
        assert(rest@ =~= line@.drop_first());
        let f = split_words(rest.as_slice());
        let ghost fv = char_views(f@);
        if f.len() == 2 && chars_are(f[0].as_slice(), "reputation") {
            assert(fv[0] == f@[0]@ && fv[1] == f@[1]@);
            match parse_number(f[1].as_slice()) {
                Some(v) => {
                    self.reputation = v;
                },
                None => {},
            }
            return;
        }
        if f.len() == 3 {
            assert(fv[0] == f@[0]@ && fv[1] == f@[1]@ && fv[2] == f@[2]@);
            match (parse_number(f[0].as_slice()), find_kit_part(f[1].as_slice())) {
                (Some(n), Some(p)) => {
                    if 1 <= n && n <= 3 {
                        let k = (n - 1) as usize;
                        let ghost before = kit_views(self.kits);
                        self.kits[k][p] = from_chars(f[2].as_slice());
                        assert(kit_views(self.kits) =~= before.update(k as int, before[k as int].update(p as int, fv[2])))
                            by {
                            assert(string_views(self.kits@[k as int]@) =~= before[k as int].update(p as int, fv[2]));
                        }
                    }
                },
                _ => {},
            }
        }
    }
}

/// The team read from the bytes of its file (the reading part of loading a
/// team): see `team_from_bytes`.
pub fn parse_team(bytes: Vec<u8>, default_reputation: u32) -> (r: TeamProfile)
    ensures
        r@ == team_from_bytes(bytes@, default_reputation),
{
    let text = decode_text(bytes.as_slice());
    let chars = to_chars(text.as_str());
    let ls = split_lines(chars.as_slice());
    let ghost lv = char_views(ls@);
    let mut profile = TeamProfile::defaults(default_reputation);
    profile.file_exists = true;
    profile.source_bytes = Some(bytes);
    let mut in_details = false;
    let ghost start = profile.scan_view(false);
    assert(lv.take(0) =~= seq![]);
    let mut i: usize = 0;
    while i < ls.len()
        invariant
            i <= ls@.len(),
            lv == char_views(ls@),
            lv == lines(decoded_text(bytes@)),
            profile.file_exists,
            bytes_view(profile.source_bytes) == Some(bytes@),
            start == (TeamScan { in_details: false, reputation: default_reputation, kits: white_kits(), players: seq![] }),
            profile.scan_view(in_details) == team_scan(lv.take(i as int), start),
        decreases ls@.len() - i,
    {
        assert(lv[i as int] == ls@[i as int]@);
        assert(lv.take(i + 1).drop_last() =~= lv.take(i as int));
        profile.read_line(&mut in_details, ls[i].as_slice());
        i += 1;
    }
    assert(lv.take(i as int) =~= lv);
    profile
}

// ---------------------------------------------------------------------------
// Roster entries and player files
// ---------------------------------------------------------------------------

/// The name part of a roster entry `Name: position`, trimmed.
pub open spec fn entry_name(entry: Seq<char>) -> Seq<char> {
    match find_char(entry, ':') {
        Some(i) => trim(entry.take(i as int)),
        None => trim(entry),
    }
}

/// The player's name in a roster entry, which names the player's file.
pub fn player_file_name(player_entry: &str) -> (r: String)
    ensures
        r@ == entry_name(player_entry@),
{
    let v = to_chars(player_entry);
    let cut = match find_first(v.as_slice(), ':') {
        Some(i) => i,
        None => v.len(),
    };
    let name = sub_chars(v.as_slice(), 0, cut);
    assert(name@ =~= v@.take(cut as int));
    proof {
        if cut == v.len() {
            assert(name@ =~= v@);
        }
    }
    from_chars(trimmed(name.as_slice()).as_slice())
}

/// The roles of a roster entry.
pub open spec fn is_role(r: Seq<char>) -> bool {
    r == "GK"@ || r == "SW"@ || r == "D"@ || r == "DM"@ || r == "M"@ || r == "AM"@ || r == "F"@
}

/// The sides of a roster entry.
pub open spec fn is_side(s: Seq<char>) -> bool {
    s == "L"@ || s == "C"@ || s == "R"@
}

/// Role and side of a roster entry `Name: ROLE SIDE`: the role must be
/// one of the roles; a missing or unknown side is empty.
pub open spec fn entry_position(entry: Seq<char>) -> Option<(Seq<char>, Seq<char>)> {
    match find_char(entry, ':') {
        None => None,
        Some(i) => {
            let f = words(entry.skip(i as int + 1));
            if f.len() == 0 || !is_role(f[0]) {
                None
            } else {
                Some((f[0], if f.len() >= 2 && is_side(f[1]) {
                    f[1]
                } else {
                    seq![]
                }))
            }
        },
    }
}

fn role_word(v: &[char]) -> (r: bool)
    ensures
        r == is_role(v@),
{
    chars_are(v, "GK") || chars_are(v, "SW") || chars_are(v, "D") || chars_are(v, "DM") || chars_are(v, "M")
        || chars_are(v, "AM") || chars_are(v, "F")
}

fn side_word(v: &[char]) -> (r: bool)
    ensures
        r == is_side(v@),
{
    chars_are(v, "L") || chars_are(v, "C") || chars_are(v, "R")
}

/// Role and side of a roster entry (see `entry_position`).
pub fn roster_position(player_entry: &str) -> (r: Option<(String, String)>)
    ensures
        match r {
            Some((role, side)) => entry_position(player_entry@) == Some((role@, side@)),
            None => entry_position(player_entry@) is None,
        },
{
    let v = to_chars(player_entry);
    let n = v.len();
    let i = match find_first(v.as_slice(), ':') {
        Some(i) => i,
        None => {
            return None;
        },
    };
    let rest = sub_chars(v.as_slice(), i + 1, n);
    assert(rest@ =~= v@.skip(i + 1));
    let f = split_words(rest.as_slice());
    let ghost fv = char_views(f@);
    if f.len() == 0 {
        return None;
    }
    assert(fv[0] == f@[0]@);
    let is_a_role = role_word(f[0].as_slice());
    if !is_a_role {
        return None;
    }
    let role = from_chars(f[0].as_slice());
    let side = if f.len() >= 2 && side_word(f[1].as_slice()) {
        assert(fv[1] == f@[1]@);
        from_chars(f[1].as_slice())
    } else {
        proof {
            if f.len() >= 2 {
                assert(fv[1] == f@[1]@);
            }
        }
        String::new()
    };
    Some((role, side))
}

/// The nationality of the first line `key = value` whose key is
/// `nationality` up to ASCII case and spaces around it, or `fallback`.
pub open spec fn nationality_in(ls: Seq<Seq<char>>, fallback: Seq<char>) -> Seq<char>
    decreases ls.len(),
{
    if ls.len() == 0 {
        fallback
    } else {
        match find_char(ls[0], '=') {
            Some(i) => if eq_ignore_case(trim(ls[0].take(i as int)), "nationality"@) {
                trim(ls[0].skip(i as int + 1))
            } else {
                nationality_in(ls.drop_first(), fallback)
            },
            None => nationality_in(ls.drop_first(), fallback),
        }
    }
}

/// The nationality written in the bytes of a player file, or `fallback`
/// (the reading part of looking up a player's nationality).
pub fn nationality_from(bytes: &[u8], fallback: &str) -> (r: String)
    ensures
        r@ == nationality_in(lines(decoded_text(bytes@)), fallback@),
{
    let text = decode_text(bytes);
    let chars = to_chars(text.as_str());
    let ls = split_lines(chars.as_slice());
    let ghost lv = char_views(ls@);
    let key = to_chars("nationality");
    let mut i: usize = 0;
    assert(lv.skip(0) =~= lv);
    while i < ls.len()
        invariant
            i <= ls@.len(),
            lv == char_views(ls@),
            lv == lines(decoded_text(bytes@)),
            key@ == "nationality"@,
            nationality_in(lv.skip(i as int), fallback@) == nationality_in(lv, fallback@),
        decreases ls@.len() - i,
    {
        let line = &ls[i];
        let ghost rest = lv.skip(i as int);
        assert(rest[0] == line@);
        assert(rest.drop_first() =~= lv.skip(i + 1));
        let n = line.len();
        match find_first(line.as_slice(), '=') {
            Some(e) => {
                let k = sub_chars(line.as_slice(), 0, e);
                assert(k@ =~= line@.take(e as int));
                let kt = trimmed(k.as_slice());
                if same_ignoring_case(kt.as_slice(), key.as_slice()) {
                    let v = sub_chars(line.as_slice(), e + 1, n);
                    assert(v@ =~= line@.skip(e + 1));
                    assert(rest.len() > 0);
                    assert(find_char(rest[0], '=') == Some(e as nat));
                    assert(nationality_in(rest, fallback@) == trim(rest[0].skip(e + 1)));
                    return from_chars(trimmed(v.as_slice()).as_slice());
                }
            },
            None => {},
        }
        i += 1;
    }
    assert(lv.skip(i as int) =~= seq![]);
    literal(fallback)
}

// ---------------------------------------------------------------------------
// The colour table
// ---------------------------------------------------------------------------

/// The colour names of the colour table after one line `$hex name ...`: its
/// first name, unless a name equal up to ASCII case came before.
pub open spec fn colour_name_step(names: Seq<Seq<char>>, line: Seq<char>) -> Seq<Seq<char>> {
    let f = words(line);
    if f.len() >= 2 && starts_with(f[0], '$') && !(exists|j: int| 0 <= j < names.len() && eq_ignore_case(
        #[trigger] names[j],
        f[1],
    )) {
        names.push(f[1])
    } else {
        names
    }
}

/// The colour names found in the given lines.
pub open spec fn colour_names_of(ls: Seq<Seq<char>>) -> Seq<Seq<char>>
    decreases ls.len(),
{
    if ls.len() == 0 {
        seq![]
    } else {
        colour_name_step(colour_names_of(ls.drop_last()), ls.last())
    }
}

/// The colour names that a kit can take, from the bytes of the colour
/// table: `white` alone when it names none.
pub open spec fn colour_names_from(bytes: Seq<u8>) -> Seq<Seq<char>> {
    let names = colour_names_of(lines(decoded_text(bytes)));
    if names.len() == 0 {
        seq!["white"@]
    } else {
        names
    }
}

/// The colour names of the colour table (see `colour_names_from`).
pub fn colour_names_in(bytes: &[u8]) -> (r: Vec<String>)
    ensures
        string_views(r@) == colour_names_from(bytes@),
{
    let text = decode_text(bytes);
    let chars = to_chars(text.as_str());
    let ls = split_lines(chars.as_slice());
    let ghost lv = char_views(ls@);
    let mut names: Vec<String> = Vec::new();
    assert(lv.take(0) =~= seq![]);
    assert(string_views(names@) =~= seq![]);
    let mut i: usize = 0;
    while i < ls.len()
        invariant
            i <= ls@.len(),
            lv == char_views(ls@),
            string_views(names@) == colour_names_of(lv.take(i as int)),
        decreases ls@.len() - i,
    {
        assert(lv[i as int] == ls@[i as int]@);
        assert(lv.take(i + 1).drop_last() =~= lv.take(i as int));
        let f = split_words(ls[i].as_slice());
        let ghost fv = char_views(f@);
        let ghost nv = string_views(names@);
        if f.len() >= 2 && first_is(f[0].as_slice(), '$') {
            assert(fv[0] == f@[0]@ && fv[1] == f@[1]@);
            let name = &f[1];
            let mut j: usize = 0;
            let mut found = false;
            while j < names.len()
                invariant
                    j <= names@.len(),
                    nv == string_views(names@),
                    fv == char_views(f@),
                    f@.len() >= 2,
                    name@ == fv[1],
                    found == exists|x: int| 0 <= x < j && eq_ignore_case(#[trigger] nv[x], fv[1]),
                decreases names@.len() - j,
            {
                let existing = string_chars(&names[j]);
                assert(nv[j as int] == existing@);
                assert(fv[1] == f@[1]@);
                if same_ignoring_case(existing.as_slice(), name.as_slice()) {
                    found = true;
                }
                j += 1;
            }
            if !found {
                names.push(from_chars(name.as_slice()));
                assert(string_views(names@) =~= nv.push(fv[1]));
            }
        }
        i += 1;
    }
    assert(lv.take(i as int) =~= lv);
    if names.len() == 0 {
        let mut white: Vec<String> = Vec::new();
        white.push(literal("white"));
        assert(string_views(white@) =~= seq!["white"@]);
        return white;
    }
    names
}

// ---------------------------------------------------------------------------
// Player details
// ---------------------------------------------------------------------------

/// The skill fields of a player file, in the order of the editor.
pub open spec fn player_skills() -> Seq<Seq<char>> {
    seq![
        "speed"@, "shotPower"@, "shotControl"@, "stamina"@, "dribbling"@, "jumping"@, "anticipation"@,
        "agility"@, "tackling"@, "heading"@, "ballControl"@, "handling"@, "reflexes"@, "aggression"@,
        "longShots"@, "teamwork"@, "offensiveness"@, "forwardRuns"@, "vision"@, "adaptability"@, "loyalty"@,
        "greed"@,
    ]
}

/// The first skill from index `i` on whose ASCII lower case is `n`.
pub open spec fn skill_from(n: Seq<char>, i: nat) -> Option<Seq<char>>
    decreases 22 - i,
{
    if i >= 22 {
        None
    } else if lower(player_skills()[i as int]) == n {
        Some(player_skills()[i as int])
    } else {
        skill_from(n, i + 1)
    }
}

/// A key of a player file without spaces, hyphens and underscores, each
/// character in its Unicode lower case.
pub open spec fn normalized_key(key: Seq<char>) -> Seq<char>
    decreases key.len(),
{
    if key.len() == 0 {
        seq![]
    } else {
        let c = key.last();
        normalized_key(key.drop_last()) + if c == ' ' || c == '-' || c == '_' {
            seq![]
        } else {
            char_lowercase(c)
        }
    }
}

/// The field that a normalized key names: a few old spellings, then the
/// skills.
pub open spec fn canonical_field(n: Seq<char>) -> Option<Seq<char>> {
    if n == "nationality"@ || n == "nation"@ {
        Some("nationality"@)
    } else if n == "ability"@ {
        Some("ability"@)
    } else if n == "reputation"@ {
        Some("reputation"@)
    } else if n == "potential"@ {
        Some("potential"@)
    } else if n == "position"@ {
        Some("position"@)
    } else if n == "yearofbirth"@ {
        Some("yearOfBirth"@)
    } else if n == "dateofbirth"@ {
        Some("dateOfBirth"@)
    } else if n == "skin"@ {
        Some("skin"@)
    } else if n == "hair"@ {
        Some("hair"@)
    } else if n == "keeping"@ || n == "handling"@ {
        Some("handling"@)
    } else if n == "attackmindedness"@ || n == "offensiveness"@ {
        Some("offensiveness"@)
    } else if n == "adaptation"@ || n == "adaptability"@ {
        Some("adaptability"@)
    } else if n == "greediness"@ || n == "greed"@ {
        Some("greed"@)
    } else {
        skill_from(n, 0)
    }
}

/// The field of a player file that `key` names, if any.
pub open spec fn canonical_of(key: Seq<char>) -> Option<Seq<char>> {
    canonical_field(normalized_key(key))
}

/// `normalized_key` of an ASCII key, where the lower case is the ASCII
/// lower case.
pub open spec fn ascii_key(key: Seq<char>) -> Seq<char>
    decreases key.len(),
{
    if key.len() == 0 {
        seq![]
    } else {
        let c = key.last();
        ascii_key(key.drop_last()) + if c == ' ' || c == '-' || c == '_' {
            seq![]
        } else {
            seq![ascii_lower(c)]
        }
    }
}

fn normalize(key: &str) -> (r: Vec<char>)
    ensures
        r@ == normalized_key(key@),
        vstd::utf8::is_ascii_chars(key@) ==> r@ == ascii_key(key@),
{
    let v = to_chars(key);
    let mut out: Vec<char> = Vec::new();
    let mut i: usize = 0;
    assert(v@.take(0) =~= seq![]);
    while i < v.len()
        invariant
            i <= v@.len(),
            v@ == key@,
            out@ == normalized_key(v@.take(i as int)),
            vstd::utf8::is_ascii_chars(key@) ==> out@ == ascii_key(v@.take(i as int)),
        decreases v@.len() - i,
    {
        let c = v[i];
        assert(v@.take(i + 1).drop_last() =~= v@.take(i as int));
        assert(v@.take(i + 1).last() == c);
        if c != ' ' && c != '-' && c != '_' {
            let l = lowercase_of(c);
            push_str(&mut out, l.as_str());
        } else {
            assert(out@ + seq![] =~= out@);
        }
        i += 1;
    }
    assert(v@.take(i as int) =~= v@);
    out
}

fn canonical_player_key(key: &str) -> (r: Option<&'static str>)
    ensures
        vstd::utf8::is_ascii_chars(key@) ==> normalized_key(key@) == ascii_key(key@),
        match r {
            Some(k) => canonical_of(key@) == Some(k@),
            None => canonical_of(key@) is None,
        },
{
    let n = normalize(key);
    let n = n.as_slice();
    if chars_are(n, "nationality") || chars_are(n, "nation") {
        return Some("nationality");
    }
    if chars_are(n, "ability") {
        return Some("ability");
    }
    if chars_are(n, "reputation") {
        return Some("reputation");
    }
    if chars_are(n, "potential") {
        return Some("potential");
    }
    if chars_are(n, "position") {
        return Some("position");
    }
    if chars_are(n, "yearofbirth") {
        return Some("yearOfBirth");
    }
    if chars_are(n, "dateofbirth") {
        return Some("dateOfBirth");
    }
    if chars_are(n, "skin") {
        return Some("skin");
    }
    if chars_are(n, "hair") {
        return Some("hair");
    }
    if chars_are(n, "keeping") || chars_are(n, "handling") {
        return Some("handling");
    }
    if chars_are(n, "attackmindedness") || chars_are(n, "offensiveness") {
        return Some("offensiveness");
    }
    if chars_are(n, "adaptation") || chars_are(n, "adaptability") {
        return Some("adaptability");
    }
    if chars_are(n, "greediness") || chars_are(n, "greed") {
        return Some("greed");
    }
    let skills = [
        "speed", "shotPower", "shotControl", "stamina", "dribbling", "jumping", "anticipation", "agility",
        "tackling", "heading", "ballControl", "handling", "reflexes", "aggression", "longShots", "teamwork",
        "offensiveness", "forwardRuns", "vision", "adaptability", "loyalty", "greed",
    ];
    assert(forall|j: int| 0 <= j < 22 ==> #[trigger] skills@[j]@ == player_skills()[j]);
    let mut i: usize = 0;
    while i < 22
        invariant
            i <= 22,
            forall|j: int| 0 <= j < 22 ==> #[trigger] skills@[j]@ == player_skills()[j],
            skill_from(n@, i as nat) == skill_from(n@, 0),
            canonical_field(n@) == skill_from(n@, 0),
            n@ == normalized_key(key@),
            vstd::utf8::is_ascii_chars(key@) ==> normalized_key(key@) == ascii_key(key@),
        decreases 22 - i,
    {
        let name = to_chars(skills[i]);
        assert(name@ == player_skills()[i as int]);
        let low = lowered(name.as_slice());
        if same_chars(low.as_slice(), n) {
            assert(skill_from(n@, i as nat) == Some(player_skills()[i as int]));
            return Some(skills[i]);
        }
        i += 1;
    }
    None
}

/// The fields of a player file, by field name in the order of `String`,
/// each name once.
pub struct FieldList {
    items: Vec<(String, String)>,
}

/// The plain values of a list of fields.
pub open spec fn field_views(v: Seq<(String, String)>) -> Seq<(Seq<char>, Seq<char>)> {
    v.map_values(|e: (String, String)| (e.0@, e.1@))
}

/// Whether the names of `es` come in strictly increasing order.
pub open spec fn strictly_sorted(es: Seq<(Seq<char>, Seq<char>)>) -> bool {
    forall|i: int, j: int| 0 <= i < j < es.len() ==> text_lt(#[trigger] es[i].0, #[trigger] es[j].0)
}

/// The value of field `k`.
pub open spec fn lookup(es: Seq<(Seq<char>, Seq<char>)>, k: Seq<char>) -> Option<Seq<char>>
    decreases es.len(),
{
    if es.len() == 0 {
        None
    } else if es[0].0 == k {
        Some(es[0].1)
    } else {
        lookup(es.drop_first(), k)
    }
}

/// The fields with `k` set to `v`: replaced where it is, else inserted in
/// its place in the order.
pub open spec fn set_entry(es: Seq<(Seq<char>, Seq<char>)>, k: Seq<char>, v: Seq<char>) -> Seq<(Seq<char>, Seq<char>)>
    decreases es.len(),
{
    if es.len() == 0 {
        seq![(k, v)]
    } else if es[0].0 == k {
        seq![(k, v)] + es.drop_first()
    } else if text_lt(k, es[0].0) {
        seq![(k, v)] + es
    } else {
        seq![es[0]] + set_entry(es.drop_first(), k, v)
    }
}

/// The fields without field `k`.
pub open spec fn remove_entry(es: Seq<(Seq<char>, Seq<char>)>, k: Seq<char>) -> Seq<(Seq<char>, Seq<char>)>
    decreases es.len(),
{
    if es.len() == 0 {
        seq![]
    } else if es[0].0 == k {
        remove_entry(es.drop_first(), k)
    } else {
        seq![es[0]] + remove_entry(es.drop_first(), k)
    }
}

impl FieldList {
    #[verifier::type_invariant]
    closed spec fn sorted(self) -> bool {
        strictly_sorted(field_views(self.items@))
    }

    /// The fields, in the order of their names.
    pub closed spec fn view(&self) -> Seq<(Seq<char>, Seq<char>)> {
        field_views(self.items@)
    }
}

proof fn lemma_sorted_tail(es: Seq<(Seq<char>, Seq<char>)>)
    requires
        strictly_sorted(es),
        es.len() > 0,
    ensures
        strictly_sorted(es.drop_first()),
        forall|j: int| 0 <= j < es.drop_first().len() ==> text_lt(es[0].0, #[trigger] es.drop_first()[j].0),
{
    assert forall|i: int, j: int| 0 <= i < j < es.drop_first().len() implies text_lt(
        #[trigger] es.drop_first()[i].0,
        #[trigger] es.drop_first()[j].0,
    ) by {
        assert(es.drop_first()[i] == es[i + 1]);
        assert(es.drop_first()[j] == es[j + 1]);
    }
    assert forall|j: int| 0 <= j < es.drop_first().len() implies text_lt(es[0].0, #[trigger] es.drop_first()[j].0) by {
        assert(es.drop_first()[j] == es[j + 1]);
    }
}

proof fn lemma_lookup_at(es: Seq<(Seq<char>, Seq<char>)>, k: Seq<char>, i: int)
    requires
        strictly_sorted(es),
        0 <= i <= es.len(),
        forall|j: int| 0 <= j < i ==> text_lt(#[trigger] es[j].0, k),
        i < es.len() ==> !text_lt(es[i].0, k),
    ensures
        lookup(es, k) == if i < es.len() && es[i].0 == k {
            Some(es[i].1)
        } else {
            None::<Seq<char>>
        },
        set_entry(es, k, es[0].1) == set_entry(es, k, es[0].1),
    decreases i,
{
    if es.len() > 0 {
        lemma_text_lt_total(es[0].0, k);
        lemma_sorted_tail(es);
        if i > 0 {
            assert forall|j: int| 0 <= j < i - 1 implies text_lt(#[trigger] es.drop_first()[j].0, k) by {
                assert(es.drop_first()[j] == es[j + 1]);
            }
            if i < es.len() {
                assert(es.drop_first()[i - 1] == es[i]);
            }
            lemma_lookup_at(es.drop_first(), k, i - 1);
        } else if es[0].0 != k {
            // every later name comes after the first, which comes after k
            assert forall|j: int| 0 <= j < es.len() implies es[j].0 != k by {
                if j > 0 {
                    lemma_text_lt_total(es[0].0, k);
                    lemma_text_lt_trans(k, es[0].0, es[j].0);
                    lemma_text_lt_total(k, es[j].0);
                }
            }
            lemma_lookup_none(es, k);
        }
    }
}

proof fn lemma_lookup_none(es: Seq<(Seq<char>, Seq<char>)>, k: Seq<char>)
    requires
        forall|j: int| 0 <= j < es.len() ==> es[j].0 != k,
    ensures
        lookup(es, k) is None,
    decreases es.len(),
{
    if es.len() > 0 {
        assert forall|j: int| 0 <= j < es.drop_first().len() implies es.drop_first()[j].0 != k by {
            assert(es.drop_first()[j] == es[j + 1]);
        }
        lemma_lookup_none(es.drop_first(), k);
    }
}

proof fn lemma_set_entry_at(es: Seq<(Seq<char>, Seq<char>)>, k: Seq<char>, v: Seq<char>, i: int)
    requires
        0 <= i <= es.len(),
        forall|j: int| 0 <= j < i ==> text_lt(#[trigger] es[j].0, k),
        i < es.len() ==> !text_lt(es[i].0, k),
    ensures
        set_entry(es, k, v) == if i < es.len() && es[i].0 == k {
            es.take(i) + seq![(k, v)] + es.skip(i + 1)
        } else {
            es.take(i) + seq![(k, v)] + es.skip(i)
        },
    decreases i,
{
    if es.len() > 0 {
        lemma_text_lt_total(es[0].0, k);
        if i > 0 {
            assert forall|j: int| 0 <= j < i - 1 implies text_lt(#[trigger] es.drop_first()[j].0, k) by {
                assert(es.drop_first()[j] == es[j + 1]);
            }
            if i < es.len() {
                assert(es.drop_first()[i - 1] == es[i]);
            }
            lemma_set_entry_at(es.drop_first(), k, v, i - 1);
            assert(es.drop_first().take(i - 1) =~= es.take(i).drop_first());
            assert(es.drop_first().skip(i - 1) =~= es.skip(i));
            if i < es.len() {
                assert(es.drop_first().skip(i) =~= es.skip(i + 1));
            }
            if i < es.len() && es[i].0 == k {
                assert(set_entry(es, k, v) =~= es.take(i) + seq![(k, v)] + es.skip(i + 1));
            } else {
                assert(set_entry(es, k, v) =~= es.take(i) + seq![(k, v)] + es.skip(i));
            }
        } else {
            assert(es.take(0) + seq![(k, v)] + es.skip(1) =~= seq![(k, v)] + es.drop_first());
            assert(es.take(0) + seq![(k, v)] + es.skip(0) =~= seq![(k, v)] + es);
        }
    } else {
        assert(es.take(0) + seq![(k, v)] + es.skip(0) =~= seq![(k, v)]);
    }
}

proof fn lemma_insert_sorted(es: Seq<(Seq<char>, Seq<char>)>, k: Seq<char>, v: Seq<char>, i: int)
    requires
        strictly_sorted(es),
        0 <= i <= es.len(),
        forall|j: int| 0 <= j < i ==> text_lt(#[trigger] es[j].0, k),
        i < es.len() ==> !text_lt(es[i].0, k),
    ensures
        strictly_sorted(set_entry(es, k, v)),
{
    lemma_set_entry_at(es, k, v, i);
    let found = i < es.len() && es[i].0 == k;
    let after = if found { i + 1 } else { i };
    let r = es.take(i) + seq![(k, v)] + es.skip(after);
    if i < es.len() {
        lemma_text_lt_total(es[i].0, k);
    }
    assert forall|a: int, b: int| 0 <= a < b < r.len() implies text_lt(#[trigger] r[a].0, #[trigger] r[b].0) by {
        if b < i {
            assert(r[a] == es[a] && r[b] == es[b]);
        } else if b == i {
            assert(r[a] == es[a]);
        } else {
            let bb = b - i - 1 + after;
            assert(r[b] == es[bb]);
            if a < i {
                assert(r[a] == es[a]);
            } else if a == i {
                if !found {
                    if bb > i {
                        lemma_text_lt_trans(k, es[i].0, es[bb].0);
                    }
                }
            } else {
                assert(r[a] == es[a - i - 1 + after]);
            }
        }
    }
}

proof fn lemma_no_key(es: Seq<(Seq<char>, Seq<char>)>, k: Seq<char>)
    requires
        forall|j: int| 0 <= j < es.len() ==> es[j].0 != k,
    ensures
        remove_entry(es, k) == es,
        lookup(es, k) is None,
    decreases es.len(),
{
    if es.len() > 0 {
        assert forall|j: int| 0 <= j < es.drop_first().len() implies es.drop_first()[j].0 != k by {
            assert(es.drop_first()[j] == es[j + 1]);
        }
        lemma_no_key(es.drop_first(), k);
        assert(seq![es[0]] + es.drop_first() =~= es);
    }
}

proof fn lemma_remove_entry_at(es: Seq<(Seq<char>, Seq<char>)>, k: Seq<char>, i: int)
    requires
        strictly_sorted(es),
        0 <= i <= es.len(),
        forall|j: int| 0 <= j < i ==> text_lt(#[trigger] es[j].0, k),
        i < es.len() ==> !text_lt(es[i].0, k),
    ensures
        remove_entry(es, k) == if i < es.len() && es[i].0 == k {
            es.take(i) + es.skip(i + 1)
        } else {
            es
        },
        strictly_sorted(remove_entry(es, k)),
    decreases i,
{
    if es.len() > 0 {
        lemma_text_lt_total(es[0].0, k);
        lemma_sorted_tail(es);
        if i > 0 {
            assert forall|j: int| 0 <= j < i - 1 implies text_lt(#[trigger] es.drop_first()[j].0, k) by {
                assert(es.drop_first()[j] == es[j + 1]);
            }
            if i < es.len() {
                assert(es.drop_first()[i - 1] == es[i]);
            }
            lemma_remove_entry_at(es.drop_first(), k, i - 1);
            assert(es.drop_first().take(i - 1) =~= es.take(i).drop_first());
            if i < es.len() {
                assert(es.drop_first().skip(i) =~= es.skip(i + 1));
            }
            if i < es.len() && es[i].0 == k {
                assert(remove_entry(es, k) =~= es.take(i) + es.skip(i + 1));
            } else {
                assert(seq![es[0]] + es.drop_first() =~= es);
            }
            let r = remove_entry(es, k);
            let t = remove_entry(es.drop_first(), k);
            assert forall|a: int, b: int| 0 <= a < b < r.len() implies text_lt(#[trigger] r[a].0, #[trigger] r[b].0) by {
                if a == 0 {
                    assert(r[b] == t[b - 1]);
                    if i < es.len() && es[i].0 == k {
                        let bb = if b - 1 < i - 1 { b - 1 } else { b };
                        assert(t[b - 1] == es.drop_first()[bb]);
                    } else {
                        assert(t[b - 1] == es.drop_first()[b - 1]);
                    }
                } else {
                    assert(r[a] == t[a - 1] && r[b] == t[b - 1]);
                }
            }
        } else {
            if es[0].0 == k {
                assert forall|j: int| 0 <= j < es.drop_first().len() implies es.drop_first()[j].0 != k by {
                    lemma_text_lt_total(k, es.drop_first()[j].0);
                }
                lemma_no_key(es.drop_first(), k);
                assert(es.take(0) + es.skip(1) =~= es.drop_first());
            } else {
                assert forall|j: int| 0 <= j < es.len() implies es[j].0 != k by {
                    if j > 0 {
                        lemma_text_lt_trans(k, es[0].0, es[j].0);
                        lemma_text_lt_total(k, es[j].0);
                    }
                }
                lemma_no_key(es, k);
            }
        }
    }
}

impl Clone for FieldList {
    fn clone(&self) -> (r: FieldList)
        ensures
            r.view() == self.view(),
    {
        proof {
            use_type_invariant(self);
        }
        let mut items: Vec<(String, String)> = Vec::new();
        let mut i: usize = 0;
        while i < self.items.len()
            invariant
                i <= self.items@.len(),
                field_views(items@) == field_views(self.items@).take(i as int),
            decreases self.items@.len() - i,
        {
            let ghost before = field_views(items@);
            let a = copy_string(&self.items[i].0);
            let b = copy_string(&self.items[i].1);
            assert(field_views(self.items@)[i as int] == (a@, b@));
            items.push((a, b));
            assert(field_views(items@) =~= before.push((a@, b@)));
            assert(field_views(items@) =~= field_views(self.items@).take(i + 1));
            i += 1;
        }
        assert(field_views(self.items@).take(i as int) =~= field_views(self.items@));
        FieldList { items }
    }
}

impl FieldList {
    fn new() -> (r: FieldList)
        ensures
            r.view() == Seq::<(Seq<char>, Seq<char>)>::empty(),
    {
        let items: Vec<(String, String)> = Vec::new();
        assert(field_views(items@) =~= seq![]);
        FieldList { items }
    }

    /// The place of field `k`: every name before it comes first in the
    /// order, and the name there (if any) does not.
    fn slot(&self, k: &[char]) -> (r: usize)
        ensures
            r <= self.view().len(),
            forall|j: int| 0 <= j < r ==> text_lt(#[trigger] self.view()[j].0, k@),
            r < self.view().len() ==> !text_lt(self.view()[r as int].0, k@),
    {
        let ghost es = self.view();
        let mut i: usize = 0;
        while i < self.items.len()
            invariant
                i <= self.items@.len(),
                es == field_views(self.items@),
                forall|j: int| 0 <= j < i ==> text_lt(#[trigger] es[j].0, k@),
            decreases self.items@.len() - i,
        {
            let name = string_chars(&self.items[i].0);
            assert(es[i as int].0 == name@);
            if !text_less(name.as_slice(), k) {
                return i;
            }
            i += 1;
        }
        i
    }

    fn name_is(&self, i: usize, k: &[char]) -> (r: bool)
        requires
            i < self.view().len(),
        ensures
            r == (self.view()[i as int].0 == k@),
    {
        let name = string_chars(&self.items[i].0);
        same_chars(name.as_slice(), k)
    }

    fn get(&self, k: &[char]) -> (r: Option<&String>)
        ensures
            match r {
                Some(v) => lookup(self.view(), k@) == Some(v@),
                None => lookup(self.view(), k@) is None,
            },
    {
        proof {
            use_type_invariant(self);
        }
        let i = self.slot(k);
        proof {
            lemma_lookup_at(self.view(), k@, i as int);
        }
        if i < self.items.len() && self.name_is(i, k) {
            Some(&self.items[i].1)
        } else {
            None
        }
    }

    fn set(&mut self, k: &[char], v: String)
        ensures
            final(self).view() == set_entry(old(self).view(), k@, v@),
    {
        proof {
            use_type_invariant(&*self);
        }
        let ghost es = self.view();
        let i = self.slot(k);
        proof {
            lemma_set_entry_at(es, k@, v@, i as int);
            lemma_insert_sorted(es, k@, v@, i as int);
        }
        let mut items: Vec<(String, String)> = Vec::new();
        std::mem::swap(&mut items, &mut self.items);
        assert(field_views(items@) == es);
        if i < items.len() && same_chars(string_chars(&items[i].0).as_slice(), k) {
            items.set(i, (from_chars(k), v));
            assert(field_views(items@) =~= es.take(i as int) + seq![(k@, v@)] + es.skip(i + 1));
        } else {
            items.insert(i, (from_chars(k), v));
            assert(field_views(items@) =~= es.take(i as int) + seq![(k@, v@)] + es.skip(i as int));
        }
        self.items = items;
    }

    fn remove(&mut self, k: &[char])
        ensures
            final(self).view() == remove_entry(old(self).view(), k@),
    {
        proof {
            use_type_invariant(&*self);
        }
        let ghost es = self.view();
        let i = self.slot(k);
        proof {
            lemma_remove_entry_at(es, k@, i as int);
        }
        if i < self.items.len() && self.name_is(i, k) {
            let mut items: Vec<(String, String)> = Vec::new();
            std::mem::swap(&mut items, &mut self.items);
            assert(field_views(items@) == es);
            items.remove(i);
            assert(field_views(items@) =~= es.take(i as int) + es.skip(i + 1));
            self.items = items;
        }
    }

    /// The fields, in the order of their names.
    pub fn entries(&self) -> (r: &Vec<(String, String)>)
        ensures
            field_views(r@) == self.view(),
    {
        &self.items
    }
}

/// The details of a player: the bytes read from the player's file and the
/// fields set, each under its canonical name.
#[derive(Clone)]
pub struct PlayerProfile {
    pub source_bytes: Option<Vec<u8>>,
    fields: FieldList,
}

/// What a player profile holds, as plain values.
pub struct PlayerModel {
    pub source_bytes: Option<Seq<u8>>,
    pub fields: Seq<(Seq<char>, Seq<char>)>,
}

impl View for PlayerProfile {
    type V = PlayerModel;

    closed spec fn view(&self) -> PlayerModel {
        PlayerModel { source_bytes: bytes_view(self.source_bytes), fields: self.fields.view() }
    }
}

/// The view of an optional string slice.
pub open spec fn str_view(r: Option<&str>) -> Option<Seq<char>> {
    match r {
        Some(s) => Some(s@),
        None => None,
    }
}

impl PlayerProfile {
    /// A player without a file and without fields.
    pub fn empty() -> (r: PlayerProfile)
        ensures
            r@ == (PlayerModel { source_bytes: None, fields: seq![] }),
    {
        PlayerProfile { source_bytes: None, fields: FieldList::new() }
    }

    /// The value of the field that `key` names, if it is set.
    pub fn value(&self, key: &str) -> (r: Option<&str>)
        ensures
            vstd::utf8::is_ascii_chars(key@) ==> canonical_of(key@) == canonical_field(ascii_key(key@)),
            str_view(r) == match canonical_of(key@) {
                Some(k) => lookup(self@.fields, k),
                None => None,
            },
    {
        match canonical_player_key(key) {
            Some(k) => {
                let kc = to_chars(k);
                match self.fields.get(kc.as_slice()) {
                    Some(v) => Some(v.as_str()),
                    None => None,
                }
            },
            None => None,
        }
    }

    /// Sets the field that `key` names; a key that names no field is
    /// ignored.
    pub fn set(&mut self, key: &str, value: &str)
        ensures
            vstd::utf8::is_ascii_chars(key@) ==> canonical_of(key@) == canonical_field(ascii_key(key@)),
            final(self)@ == (PlayerModel {
                fields: match canonical_of(key@) {
                    Some(k) => set_entry(old(self)@.fields, k, value@),
                    None => old(self)@.fields,
                },
                ..old(self)@
            }),
    {
        match canonical_player_key(key) {
            Some(k) => {
                let kc = to_chars(k);
                self.fields.set(kc.as_slice(), literal(value));
            },
            None => {},
        }
    }

    /// Removes the field that `key` names.
    pub fn remove(&mut self, key: &str)
        ensures
            vstd::utf8::is_ascii_chars(key@) ==> canonical_of(key@) == canonical_field(ascii_key(key@)),
            final(self)@ == (PlayerModel {
                fields: match canonical_of(key@) {
                    Some(k) => remove_entry(old(self)@.fields, k),
                    None => old(self)@.fields,
                },
                ..old(self)@
            }),
    {
        match canonical_player_key(key) {
            Some(k) => {
                let kc = to_chars(k);
                self.fields.remove(kc.as_slice());
            },
            None => {},
        }
    }

    /// The fields set, in the order of their names.
    pub fn fields(&self) -> (r: &Vec<(String, String)>)
        ensures
            field_views(r@) == self@.fields,
    {
        self.fields.entries()
    }
}

/// After setting a field, reading it gives the value set, and every other
/// field reads as before.
pub proof fn law_set_then_lookup(es: Seq<(Seq<char>, Seq<char>)>, k: Seq<char>, v: Seq<char>, other: Seq<char>)
    ensures
        lookup(set_entry(es, k, v), k) == Some(v),
        other != k ==> lookup(set_entry(es, k, v), other) == lookup(es, other),
    decreases es.len(),
{
    if es.len() > 0 && es[0].0 != k && !text_lt(k, es[0].0) {
        law_set_then_lookup(es.drop_first(), k, v, other);
        let r = set_entry(es, k, v);
        assert(r.drop_first() =~= set_entry(es.drop_first(), k, v));
    } else if es.len() > 0 && es[0].0 == k {
        let r = set_entry(es, k, v);
        assert(r.drop_first() =~= es.drop_first());
    } else if es.len() > 0 {
        let r = set_entry(es, k, v);
        assert(r.drop_first() =~= es);
    } else {
        let r = set_entry(es, k, v);
        assert(r.drop_first() =~= es);
    }
}

/// After removing a field it reads as unset, and every other field reads as
/// before.
pub proof fn law_remove_then_lookup(es: Seq<(Seq<char>, Seq<char>)>, k: Seq<char>, other: Seq<char>)
    ensures
        lookup(remove_entry(es, k), k) is None,
        other != k ==> lookup(remove_entry(es, k), other) == lookup(es, other),
    decreases es.len(),
{
    if es.len() > 0 {
        law_remove_then_lookup(es.drop_first(), k, other);
        if es[0].0 != k {
            let r = remove_entry(es, k);
            assert(r.drop_first() =~= remove_entry(es.drop_first(), k));
        }
    }
}

// ---------------------------------------------------------------------------
// Reading and writing a player file
// ---------------------------------------------------------------------------

/// The fields after one line `key = value` of a player file: set when the
/// key names a field.
pub open spec fn player_line_fields(es: Seq<(Seq<char>, Seq<char>)>, line: Seq<char>) -> Seq<(Seq<char>, Seq<char>)> {
    match find_char(line, '=') {
        Some(i) => match canonical_of(trim(line.take(i as int))) {
            Some(k) => set_entry(es, k, trim(line.skip(i as int + 1))),
            None => es,
        },
        None => es,
    }
}

/// The fields set by the given lines.
pub open spec fn player_fields_of(ls: Seq<Seq<char>>) -> Seq<(Seq<char>, Seq<char>)>
    decreases ls.len(),
{
    if ls.len() == 0 {
        seq![]
    } else {
        player_line_fields(player_fields_of(ls.drop_last()), ls.last())
    }
}

/// The player read from the bytes of the player's file.
pub open spec fn player_from_bytes(bytes: Seq<u8>) -> PlayerModel {
    PlayerModel { source_bytes: Some(bytes), fields: player_fields_of(lines(decoded_text(bytes))) }
}

/// The player read from the bytes of the player's file (the reading part
/// of loading a player): see `player_from_bytes`.
pub fn parse_player(bytes: Vec<u8>) -> (r: PlayerProfile)
    ensures
        r@ == player_from_bytes(bytes@),
{
    let text = decode_text(bytes.as_slice());
    let chars = to_chars(text.as_str());
    let ls = split_lines(chars.as_slice());
    let ghost lv = char_views(ls@);
    let mut profile = PlayerProfile { source_bytes: Some(bytes), fields: FieldList::new() };
    assert(lv.take(0) =~= seq![]);
    let mut i: usize = 0;
    while i < ls.len()
        invariant
            i <= ls@.len(),
            lv == char_views(ls@),
            lv == lines(decoded_text(bytes@)),
            bytes_view(profile.source_bytes) == Some(bytes@),
            profile.fields.view() == player_fields_of(lv.take(i as int)),
        decreases ls@.len() - i,
    {
        let line = &ls[i];
        assert(lv[i as int] == line@);
        assert(lv.take(i + 1).drop_last() =~= lv.take(i as int));
        let n = line.len();
        match find_first(line.as_slice(), '=') {
            Some(e) => {
                let k = sub_chars(line.as_slice(), 0, e);
                assert(k@ =~= line@.take(e as int));
                let v = sub_chars(line.as_slice(), e + 1, n);
                assert(v@ =~= line@.skip(e + 1));
                let key = from_chars(trimmed(k.as_slice()).as_slice());
                let value = from_chars(trimmed(v.as_slice()).as_slice());
                profile.set(key.as_str(), value.as_str());
            },
            None => {},
        }
        i += 1;
    }
    assert(lv.take(i as int) =~= lv);
    profile
}

/// Where the writer of a player file is: the text so far and the fields
/// whose lines it has met.
pub struct PlayerRender {
    pub output: Seq<char>,
    pub seen: Seq<Seq<char>>,
}

/// The line `key = value` with the given ending.
pub open spec fn field_line(k: Seq<char>, v: Seq<char>, ending: Seq<char>) -> Seq<char> {
    k + " = "@ + v + ending
}

/// The writer after one original line: a line of a field is written with
/// the field's value, or left out when the field is not set; any other line
/// is kept.
pub open spec fn player_write_step(es: Seq<(Seq<char>, Seq<char>)>, st: PlayerRender, raw: Seq<char>) -> PlayerRender {
    let body = line_body(raw);
    match find_char(body, '=') {
        Some(i) => match canonical_of(trim(body.take(i as int))) {
            Some(k) => PlayerRender {
                output: match lookup(es, k) {
                    Some(v) => st.output + field_line(k, v, line_ending(raw)),
                    None => st.output,
                },
                seen: st.seen.push(k),
            },
            None => PlayerRender { output: st.output + raw, ..st },
        },
        None => PlayerRender { output: st.output + raw, ..st },
    }
}

/// The writer after the given original lines.
pub open spec fn player_write_fold(es: Seq<(Seq<char>, Seq<char>)>, ps: Seq<Seq<char>>) -> PlayerRender
    decreases ps.len(),
{
    if ps.len() == 0 {
        PlayerRender { output: seq![], seen: seq![] }
    } else {
        player_write_step(es, player_write_fold(es, ps.drop_last()), ps.last())
    }
}

/// The lines of the fields that the file did not have, in the order of
/// their names.
pub open spec fn unseen_lines(es: Seq<(Seq<char>, Seq<char>)>, seen: Seq<Seq<char>>, nl: Seq<char>) -> Seq<char>
    decreases es.len(),
{
    if es.len() == 0 {
        seq![]
    } else {
        unseen_lines(es.drop_last(), seen, nl) + if seen.contains(es.last().0) {
            seq![]
        } else {
            field_line(es.last().0, es.last().1, nl)
        }
    }
}

/// The text of an optional file.
pub open spec fn source_text(bytes: Option<Seq<u8>>) -> Seq<char> {
    match bytes {
        Some(b) => decoded_text(b),
        None => seq![],
    }
}

/// `text` ending with a line feed: `nl` is added when it does not.
pub open spec fn closed_text(text: Seq<char>, nl: Seq<char>) -> Seq<char> {
    if text.len() > 0 && text.last() != '\n' {
        text + nl
    } else {
        text
    }
}

/// The text written for a player: the original lines with the fields'
/// values, then the fields that had no line.
pub open spec fn player_text(p: PlayerModel) -> Seq<char> {
    let source = source_text(p.source_bytes);
    let nl = newline_of(source);
    let st = player_write_fold(p.fields, pieces(source));
    closed_text(st.output, nl) + unseen_lines(p.fields, st.seen, nl)
}

/// The bytes of a rewritten file: Windows-1252 when the file read was not
/// UTF-8, else UTF-8; `message` when a character has no Windows-1252 byte.
pub open spec fn file_bytes(source: Option<Seq<u8>>, text: Seq<char>, message: Seq<char>) -> Result<Seq<u8>, Seq<char>> {
    if source matches Some(b) && !valid_utf8(b) {
        let (bytes, errors) = windows_1252_encoded(text);
        if errors {
            Err(message)
        } else {
            Ok(bytes)
        }
    } else {
        Ok(encode_utf8(text))
    }
}

/// The bytes written for a player, or why they cannot be.
pub open spec fn player_bytes(p: PlayerModel) -> Result<Seq<u8>, Seq<char>> {
    file_bytes(
        p.source_bytes,
        player_text(p),
        "Il giocatore contiene caratteri non rappresentabili in Windows-1252."@,
    )
}

/// Encodes `text` as `file_bytes` says.
fn encode_file(source: &Option<Vec<u8>>, text: &str, message: &str) -> (r: Result<Vec<u8>, String>)
    ensures
        match r {
            Ok(b) => file_bytes(bytes_view(*source), text@, message@) == Ok::<Seq<u8>, Seq<char>>(b@),
            Err(e) => file_bytes(bytes_view(*source), text@, message@) == Err::<Seq<u8>, Seq<char>>(e@),
        },
{
    let legacy = match source {
        Some(b) => utf8_text(b.as_slice()).is_none(),
        None => false,
    };
    if legacy {
        let (bytes, errors) = windows_1252_encode(text);
        if errors {
            return Err(literal(message));
        }
        return Ok(bytes);
    }
    let none: Vec<u8> = Vec::new();
    Ok(utf8_bytes_like(none.as_slice(), text))
}

fn push_field_line(out: &mut Vec<char>, k: &[char], v: &[char], ending: &[char])
    ensures
        final(out)@ == old(out)@ + field_line(k@, v@, ending@),
{
    push_all(out, k);
    push_str(out, " = ");
    push_all(out, v);
    push_all(out, ending);
    assert(final(out)@ =~= old(out)@ + field_line(k@, v@, ending@));
}

/// The bytes written for a player (the writing part of saving a player):
/// see `player_bytes`.
pub fn render_player(profile: &PlayerProfile) -> (r: Result<Vec<u8>, String>)
    ensures
        match r {
            Ok(b) => player_bytes(profile@) == Ok::<Seq<u8>, Seq<char>>(b@),
            Err(e) => player_bytes(profile@) == Err::<Seq<u8>, Seq<char>>(e@),
        },
{
    let ghost p = profile@;
    let ghost es = p.fields;
    let source = match &profile.source_bytes {
        Some(b) => decode_text(b.as_slice()),
        None => String::new(),
    };
    let src = to_chars(source.as_str());
    assert(src@ == source_text(p.source_bytes));
    let nl = if holds_crlf(src.as_slice()) {
        to_chars("\r\n")
    } else {
        to_chars("\n")
    };
    assert(nl@ == newline_of(src@));
    let ps = split_pieces(src.as_slice());
    let ghost pv = char_views(ps@);
    let mut out: Vec<char> = Vec::new();
    let mut seen: Vec<Vec<char>> = Vec::new();
    assert(pv.take(0) =~= seq![]);
    assert(char_views(seen@) =~= seq![]);
    let mut i: usize = 0;
    while i < ps.len()
        invariant
            i <= ps@.len(),
            pv == char_views(ps@),
            es == profile.fields.view(),
            player_write_fold(es, pv.take(i as int)) == (PlayerRender { output: out@, seen: char_views(seen@) }),
        decreases ps@.len() - i,
    {
        let raw = &ps[i];
        assert(pv[i as int] == raw@);
        assert(pv.take(i + 1).drop_last() =~= pv.take(i as int));
        let n = body_len(raw.as_slice());
        let body = sub_chars(raw.as_slice(), 0, n);
        assert(body@ =~= line_body(raw@));
        let ending = sub_chars(raw.as_slice(), n, raw.len());
        assert(ending@ =~= line_ending(raw@));
        let mut kept = true;
        match find_first(body.as_slice(), '=') {
            Some(e) => {
                let k = sub_chars(body.as_slice(), 0, e);
                assert(k@ =~= body@.take(e as int));
                let key = from_chars(trimmed(k.as_slice()).as_slice());
                match canonical_player_key(key.as_str()) {
                    Some(name) => {
                        kept = false;
                        let kc = to_chars(name);
                        match profile.fields.get(kc.as_slice()) {
                            Some(v) => {
                                let vc = string_chars(v);
                                push_field_line(&mut out, kc.as_slice(), vc.as_slice(), ending.as_slice());
                            },
                            None => {},
                        }
                        let ghost sv = char_views(seen@);
                        seen.push(kc);
                        assert(char_views(seen@) =~= sv.push(name@));
                    },
                    None => {},
                }
            },
            None => {},
        }
        if kept {
            push_all(&mut out, raw.as_slice());
        }
        i += 1;
    }
    assert(pv.take(i as int) =~= pv);
    if out.len() > 0 && out[out.len() - 1] != '\n' {
        assert(out@.last() == out@[out@.len() - 1]);
        push_all(&mut out, nl.as_slice());
    }
    assert(out@ == closed_text(player_write_fold(es, pv).output, nl@));
    let entries = profile.fields.entries();
    let ghost before = out@;
    let ghost sv = char_views(seen@);
    assert(es.take(0) =~= seq![]);
    let mut j: usize = 0;
    while j < entries.len()
        invariant
            j <= entries@.len(),
            field_views(entries@) == es,
            sv == char_views(seen@),
            out@ == before + unseen_lines(es.take(j as int), sv, nl@),
        decreases entries@.len() - j,
    {
        let kc = string_chars(&entries[j].0);
        let vc = string_chars(&entries[j].1);
        assert(es[j as int] == (kc@, vc@));
        assert(es.take(j + 1).drop_last() =~= es.take(j as int));
        assert(es.take(j + 1).last() == es[j as int]);
        if !list_holds(&seen, kc.as_slice()) {
            push_field_line(&mut out, kc.as_slice(), vc.as_slice(), nl.as_slice());
        }
        j += 1;
    }
    assert(es.take(j as int) =~= es);
    let text = from_chars(out.as_slice());
    encode_file(&profile.source_bytes, text.as_str(), "Il giocatore contiene caratteri non rappresentabili in Windows-1252.")
}

// ---------------------------------------------------------------------------
// Writing a team file
// ---------------------------------------------------------------------------

/// Where the writer of a team file is: the text so far, the kit colours
/// and whether the reputation had their lines, the roster lines met, and
/// whether the details have started.
pub struct TeamRender {
    pub output: Seq<char>,
    pub seen: Seq<Seq<bool>>,
    pub reputation_seen: bool,
    pub player_index: nat,
    pub in_details: bool,
}

/// The words of an instruction line `! ...`; none for another line.
pub open spec fn instruction_words(tb: Seq<char>) -> Seq<Seq<char>> {
    if starts_with(tb, '!') {
        words(tb.drop_first())
    } else {
        seq![]
    }
}

/// The line `! reputation n`.
pub open spec fn reputation_line(reputation: u32, ending: Seq<char>) -> Seq<char> {
    "! reputation "@ + decimal(reputation as nat) + ending
}

/// The line `! k part colour` of kit `k` (counted from one).
pub open spec fn kit_line(k: int, part: Seq<char>, colour: Seq<char>, ending: Seq<char>) -> Seq<char> {
    "! "@ + decimal((k + 1) as nat) + " "@ + part + " "@ + colour + ending
}

/// The writer after one original line: the reputation and kit lines get
/// the team's values, the roster lines the team's players in order (a line
/// with no player left is dropped), and every other line is kept.
pub open spec fn team_write_step(t: TeamModel, st: TeamRender, raw: Seq<char>) -> TeamRender {
    let body = line_body(raw);
    let ending = line_ending(raw);
    let tb = trim(body);
    let f = instruction_words(tb);
    let in_details = st.in_details || starts_with(tb, '$');
    if f.len() == 2 && eq_ignore_case(f[0], "reputation"@) {
        TeamRender {
            output: st.output + reputation_line(t.reputation, ending),
            reputation_seen: true,
            in_details,
            ..st
        }
    } else {
        match kit_instruction(f) {
            Some((k, p, _)) => TeamRender {
                output: st.output + kit_line(k, f[1], t.kits[k][p], ending),
                seen: st.seen.update(k, st.seen[k].update(p, true)),
                in_details,
                ..st
            },
            None => if !in_details && tb.len() > 0 && !starts_with_any(tb, team_marks()) {
                TeamRender {
                    output: if st.player_index < t.players.len() {
                        st.output + t.players[st.player_index as int] + ending
                    } else {
                        st.output
                    },
                    player_index: st.player_index + 1,
                    in_details,
                    ..st
                }
            } else {
                TeamRender { output: st.output + raw, in_details, ..st }
            },
        }
    }
}

/// The writer after the given original lines.
pub open spec fn team_write_fold(t: TeamModel, start: TeamRender, ps: Seq<Seq<char>>) -> TeamRender
    decreases ps.len(),
{
    if ps.len() == 0 {
        start
    } else {
        team_write_step(t, team_write_fold(t, start, ps.drop_last()), ps.last())
    }
}

/// The kit lines of the first `n` (kit, part) pairs that the file did not
/// have, kit by kit and part by part.
pub open spec fn missing_kit_lines(t: TeamModel, seen: Seq<Seq<bool>>, nl: Seq<char>, n: nat) -> Seq<char>
    decreases n,
{
    if n == 0 {
        seq![]
    } else {
        let i = n - 1;
        let k = i / 5;
        let p = i % 5;
        missing_kit_lines(t, seen, nl, (n - 1) as nat) + if seen[k][p] {
            seq![]
        } else {
            kit_line(k, kit_part(p), t.kits[k][p], nl)
        }
    }
}

/// No kit line met yet.
pub open spec fn nothing_seen() -> Seq<Seq<bool>> {
    Seq::new(3, |k: int| Seq::new(5, |p: int| false))
}

/// The text written for the team `name`: the original lines with the
/// team's values, a `! Name` line for a new file, then the reputation and
/// the kit colours that had no line.
pub open spec fn team_text(name: Seq<char>, t: TeamModel) -> Seq<char> {
    let source = source_text(t.source_bytes);
    let nl = newline_of(source);
    let start = TeamRender {
        output: if source.len() == 0 {
            "! Name \""@ + name + "\""@ + nl
        } else {
            seq![]
        },
        seen: nothing_seen(),
        reputation_seen: false,
        player_index: 0,
        in_details: false,
    };
    let st = team_write_fold(t, start, pieces(source));
    let out = closed_text(st.output, nl);
    let out2 = if st.reputation_seen {
        out
    } else {
        out + reputation_line(t.reputation, nl)
    };
    out2 + missing_kit_lines(t, st.seen, nl, 15)
}

/// The bytes written for a team, or why they cannot be.
pub open spec fn team_bytes(name: Seq<char>, t: TeamModel) -> Result<Seq<u8>, Seq<char>> {
    file_bytes(t.source_bytes, team_text(name, t), "La divisa contiene caratteri non rappresentabili in Windows-1252."@)
}

struct TeamWriter {
    output: Vec<char>,
    seen: [[bool; 5]; 3],
    reputation_seen: bool,
    player_index: usize,
    in_details: bool,
}

/// The flags of three kits, as plain values.
pub open spec fn seen_views(seen: [[bool; 5]; 3]) -> Seq<Seq<bool>> {
    seen@.map_values(|a: [bool; 5]| a@)
}

impl View for TeamWriter {
    type V = TeamRender;

    closed spec fn view(&self) -> TeamRender {
        TeamRender {
            output: self.output@,
            seen: seen_views(self.seen),
            reputation_seen: self.reputation_seen,
            player_index: self.player_index as nat,
            in_details: self.in_details,
        }
    }
}

fn push_kit_line(out: &mut Vec<char>, k: usize, part: &[char], colour: &[char], ending: &[char])
    requires
        k < 3,
    ensures
        final(out)@ == old(out)@ + kit_line(k as int, part@, colour@, ending@),
{
    push_str(out, "! ");
    push_decimal(out, (k + 1) as u64);
    push_str(out, " ");
    push_all(out, part);
    push_str(out, " ");
    push_all(out, colour);
    push_all(out, ending);
    assert(final(out)@ =~= old(out)@ + kit_line(k as int, part@, colour@, ending@));
}

fn push_reputation_line(out: &mut Vec<char>, reputation: u32, ending: &[char])
    ensures
        final(out)@ == old(out)@ + reputation_line(reputation, ending@),
{
    push_str(out, "! reputation ");
    push_decimal(out, reputation as u64);
    push_all(out, ending);
    assert(final(out)@ =~= old(out)@ + reputation_line(reputation, ending@));
}

impl TeamWriter {
    fn step(&mut self, t: &TeamProfile, raw: &[char])
        requires
            old(self).player_index < usize::MAX,
        ensures
            final(self)@ == team_write_step(t@, old(self)@, raw@),
            final(self).player_index <= old(self).player_index + 1,
    {
        let n = body_len(raw);
        let body = sub_chars(raw, 0, n);
        assert(body@ =~= line_body(raw@));
        let ending = sub_chars(raw, n, raw.len());
        assert(ending@ =~= line_ending(raw@));
        let tb = trimmed(body.as_slice());
        let f = if first_is(tb.as_slice(), '!') {
            let rest = sub_chars(tb.as_slice(), 1, tb.len());
            assert(rest@ =~= tb@.drop_first());
            split_words(rest.as_slice())
        } else {
            let none: Vec<Vec<char>> = Vec::new();
            assert(char_views(none@) =~= seq![]);
            none
        };
        let ghost fv = char_views(f@);
        assert(fv == instruction_words(tb@));
        if first_is(tb.as_slice(), '$') {
            self.in_details = true;
        }
        if f.len() == 2 && same_ignoring_case(f[0].as_slice(), to_chars("reputation").as_slice()) {
            assert(fv[0] == f@[0]@);
            push_reputation_line(&mut self.output, t.reputation, ending.as_slice());
            self.reputation_seen = true;
            return;
        }
        if f.len() == 3 {
            assert(fv[0] == f@[0]@ && fv[1] == f@[1]@ && fv[2] == f@[2]@);
            match (parse_number(f[0].as_slice()), find_kit_part(f[1].as_slice())) {
                (Some(num), Some(p)) => {
                    if 1 <= num && num <= 3 {
                        let k = (num - 1) as usize;
                        let colour = string_chars(&t.kits[k][p]);
                        assert(t@.kits[k as int][p as int] == colour@);
                        push_kit_line(&mut self.output, k, f[1].as_slice(), colour.as_slice(), ending.as_slice());
                        let ghost before = seen_views(self.seen);
                        self.seen[k][p] = true;
                        assert(seen_views(self.seen) =~= before.update(k as int, before[k as int].update(p as int, true)));
                        return;
                    }
                },
                _ => {},
            }
        }
        assert(team_marks() =~= ['!', '#', ';']@);
        if !self.in_details && tb.len() > 0 && !first_in(tb.as_slice(), &['!', '#', ';']) {
            if self.player_index < t.players.len() {
                assert(t@.players[self.player_index as int] == t.players@[self.player_index as int]@);
                push_str(&mut self.output, t.players[self.player_index].as_str());
                push_all(&mut self.output, ending.as_slice());
            }
            self.player_index = self.player_index + 1;
            return;
        }
        push_all(&mut self.output, raw);
    }
}

/// The bytes written for the team `team` (the writing part of saving a
/// team): see `team_bytes`.
pub fn render_team(team: &str, profile: &TeamProfile) -> (r: Result<Vec<u8>, String>)
    ensures
        match r {
            Ok(b) => team_bytes(team@, profile@) == Ok::<Seq<u8>, Seq<char>>(b@),
            Err(e) => team_bytes(team@, profile@) == Err::<Seq<u8>, Seq<char>>(e@),
        },
{
    let ghost t = profile@;
    let source = match &profile.source_bytes {
        Some(b) => decode_text(b.as_slice()),
        None => String::new(),
    };
    let src = to_chars(source.as_str());
    assert(src@ == source_text(t.source_bytes));
    let nl = if holds_crlf(src.as_slice()) {
        to_chars("\r\n")
    } else {
        to_chars("\n")
    };
    assert(nl@ == newline_of(src@));
    let mut output: Vec<char> = Vec::new();
    if src.len() == 0 {
        push_str(&mut output, "! Name \"");
        push_str(&mut output, team);
        push_str(&mut output, "\"");
        push_all(&mut output, nl.as_slice());
    }
    let mut writer = TeamWriter {
        output,
        seen: [[false, false, false, false, false], [false, false, false, false, false], [false, false, false, false, false]],
        reputation_seen: false,
        player_index: 0,
        in_details: false,
    };
    let ghost start = writer@;
    assert forall|k: int| 0 <= k < 3 implies #[trigger] start.seen[k] =~= nothing_seen()[k] by {
        assert(start.seen[k] == writer.seen@[k]@);
    }
    assert(start.seen =~= nothing_seen());
    assert(start.output =~= if src@.len() == 0 {
        "! Name \""@ + team@ + "\""@ + nl@
    } else {
        seq![]
    });
    let ps = split_pieces(src.as_slice());
    let ghost pv = char_views(ps@);
    assert(pv.take(0) =~= seq![]);
    let mut i: usize = 0;
    while i < ps.len()
        invariant
            i <= ps@.len(),
            pv == char_views(ps@),
            t == profile@,
            writer.player_index <= i,
            writer@ == team_write_fold(t, start, pv.take(i as int)),
        decreases ps@.len() - i,
    {
        assert(pv[i as int] == ps@[i as int]@);
        assert(pv.take(i + 1).drop_last() =~= pv.take(i as int));
        writer.step(profile, ps[i].as_slice());
        i += 1;
    }
    assert(pv.take(i as int) =~= pv);
    let mut out = writer.output;
    if out.len() > 0 && out[out.len() - 1] != '\n' {
        assert(out@.last() == out@[out@.len() - 1]);
        push_all(&mut out, nl.as_slice());
    }
    if !writer.reputation_seen {
        push_reputation_line(&mut out, profile.reputation, nl.as_slice());
    }
    let parts = kit_parts();
    let ghost seen = seen_views(writer.seen);
    let ghost before = out@;
    let mut n: usize = 0;
    while n < 15
        invariant
            n <= 15,
            t == profile@,
            seen == seen_views(writer.seen),
            forall|j: int| 0 <= j < 5 ==> #[trigger] parts@[j]@ == kit_part(j),
            out@ == before + missing_kit_lines(t, seen, nl@, n as nat),
        decreases 15 - n,
    {
        let k = n / 5;
        let p = n % 5;
        assert(seen[k as int][p as int] == writer.seen@[k as int]@[p as int]);
        if !writer.seen[k][p] {
            let part = to_chars(parts[p]);
            let colour = string_chars(&profile.kits[k][p]);
            assert(t.kits[k as int][p as int] == colour@);
            push_kit_line(&mut out, k, part.as_slice(), colour.as_slice(), nl.as_slice());
        }
        n += 1;
    }
    let text = from_chars(out.as_slice());
    encode_file(&profile.source_bytes, text.as_str(), "La divisa contiene caratteri non rappresentabili in Windows-1252.")
}

// ---------------------------------------------------------------------------
// Colour values
// ---------------------------------------------------------------------------

/// The value of a hexadecimal digit.
pub open spec fn hex_digit(c: char) -> Option<nat> {
    if '0' <= c <= '9' {
        Some((c as int - '0' as int) as nat)
    } else if 'a' <= c <= 'f' {
        Some((c as int - 'a' as int + 10) as nat)
    } else if 'A' <= c <= 'F' {
        Some((c as int - 'A' as int + 10) as nat)
    } else {
        None
    }
}

/// Whether every character of `s` is a hexadecimal digit.
pub open spec fn all_hex(s: Seq<char>) -> bool {
    forall|i: int| 0 <= i < s.len() ==> #[trigger] hex_digit(s[i]) is Some
}

/// The value of a string of hexadecimal digits.
pub open spec fn hex_value(s: Seq<char>) -> nat
    decreases s.len(),
{
    if s.len() == 0 {
        0
    } else {
        hex_value(s.drop_last()) * 16 + hex_digit(s.last()).unwrap()
    }
}

/// What `u32::from_str_radix(s, 16)` accepts: an optional `+`, then at
/// least one hexadecimal digit, for a value that fits in `u32`.
pub open spec fn parse_hex(s: Seq<char>) -> Option<u32> {
    let d = if starts_with(s, '+') {
        s.drop_first()
    } else {
        s
    };
    if d.len() > 0 && all_hex(d) && hex_value(d) <= u32::MAX {
        Some(hex_value(d) as u32)
    } else {
        None
    }
}

proof fn lemma_hex_value_monotone(s: Seq<char>, i: int)
    requires
        0 <= i <= s.len(),
        all_hex(s),
    ensures
        hex_value(s.take(i)) <= hex_value(s),
    decreases s.len() - i,
{
    if i < s.len() {
        assert(s.drop_last().take(i) =~= s.take(i));
        assert(all_hex(s.drop_last())) by {
            assert forall|j: int| 0 <= j < s.drop_last().len() implies #[trigger] hex_digit(s.drop_last()[j]) is Some by {
                assert(s.drop_last()[j] == s[j]);
            }
        }
        lemma_hex_value_monotone(s.drop_last(), i);
        assert(s.take(s.len() as int) =~= s);
    } else {
        assert(s.take(i) =~= s);
    }
}

fn hex_digit_of(c: char) -> (r: Option<u32>)
    ensures
        r matches Some(d) ==> hex_digit(c) == Some(d as nat) && d < 16,
        r is None ==> hex_digit(c) is None,
{
    if '0' <= c && c <= '9' {
        Some(c as u32 - '0' as u32)
    } else if 'a' <= c && c <= 'f' {
        Some(c as u32 - 'a' as u32 + 10)
    } else if 'A' <= c && c <= 'F' {
        Some(c as u32 - 'A' as u32 + 10)
    } else {
        None
    }
}

/// `u32::from_str_radix(_, 16)`.
fn parse_hex_number(v: &[char]) -> (r: Option<u32>)
    ensures
        r == parse_hex(v@),
{
    let start: usize = if v.len() > 0 && v[0] == '+' {
        1
    } else {
        0
    };
    let ghost d = if starts_with(v@, '+') {
        v@.drop_first()
    } else {
        v@
    };
    assert(d =~= v@.skip(start as int));
    if start >= v.len() {
        return None;
    }
    let mut acc: u64 = 0;
    let mut i: usize = start;
    while i < v.len()
        invariant
            start <= i <= v@.len(),
            d == v@.skip(start as int),
            d == (if starts_with(v@, '+') { v@.drop_first() } else { v@ }),
            d.len() > 0,
            all_hex(d.take(i - start)),
            acc == hex_value(d.take(i - start)),
            acc <= u32::MAX,
        decreases v@.len() - i,
    {
        let c = v[i];
        assert(d[i - start] == c);
        let digit = match hex_digit_of(c) {
            Some(x) => x as u64,
            None => {
                return None;
            },
        };
        proof {
            let p = d.take(i - start + 1);
            assert(p.drop_last() =~= d.take(i - start));
            assert(p.last() == c);
            assert(all_hex(p)) by {
                assert forall|j: int| 0 <= j < p.len() implies #[trigger] hex_digit(p[j]) is Some by {
                    if j < p.len() - 1 {
                        assert(p[j] == d.take(i - start)[j]);
                    }
                }
            }
        }
        if acc > (u32::MAX as u64 - digit) / 16 {
            proof {
                let p = d.take(i - start + 1);
                assert(p.drop_last() =~= d.take(i - start));
                assert(hex_value(p) == acc * 16 + digit);
                assert(acc * 16 + digit > u32::MAX) by (nonlinear_arith)
                    requires
                        acc > (u32::MAX as u64 - digit) / 16,
                        digit <= 15,
                ;
                if all_hex(d) {
                    lemma_hex_value_monotone(d, i - start + 1);
                }
            }
            return None;
        }
        assert(acc * 16 + digit <= u32::MAX) by (nonlinear_arith)
            requires
                acc <= (u32::MAX as u64 - digit) / 16,
                digit <= 15,
        ;
        proof {
            let p = d.take(i - start + 1);
            assert(p.drop_last() =~= d.take(i - start));
        }
        acc = acc * 16 + digit;
        i += 1;
    }
    assert(d.take(i - start) =~= d);
    Some(acc as u32)
}

/// The red, green and blue bytes of a colour value `0xRRGGBB`.
pub open spec fn rgb_of(v: u32) -> (u8, u8, u8) {
    (((v / 65536) % 256) as u8, ((v / 256) % 256) as u8, (v % 256) as u8)
}

/// The entries of one line `$hex name ...` of the colour table: each name
/// in its Unicode lower case with the colour.
pub open spec fn colour_line_entries(line: Seq<char>) -> Seq<(Seq<char>, (u8, u8, u8))> {
    let f = words(line);
    if f.len() >= 1 && starts_with(f[0], '$') {
        match parse_hex(f[0].drop_first()) {
            Some(v) => f.skip(1).map_values(|n: Seq<char>| (unicode_lowercase(n), rgb_of(v))),
            None => seq![],
        }
    } else {
        seq![]
    }
}

/// The entries of the given lines of the colour table, in order.
pub open spec fn colour_entries_of(ls: Seq<Seq<char>>) -> Seq<(Seq<char>, (u8, u8, u8))>
    decreases ls.len(),
{
    if ls.len() == 0 {
        seq![]
    } else {
        colour_entries_of(ls.drop_last()) + colour_line_entries(ls.last())
    }
}

/// The plain values of colour entries.
pub open spec fn colour_views(v: Seq<(String, (u8, u8, u8))>) -> Seq<(Seq<char>, (u8, u8, u8))> {
    v.map_values(|e: (String, (u8, u8, u8))| (e.0@, e.1))
}

/// The named colours of the colour table, from its bytes, in the order of
/// the file (the reading part of loading the colours).
pub fn colour_entries(bytes: &[u8]) -> (r: Vec<(String, (u8, u8, u8))>)
    ensures
        colour_views(r@) == colour_entries_of(lines(decoded_text(bytes@))),
{
    let text = decode_text(bytes);
    let chars = to_chars(text.as_str());
    let ls = split_lines(chars.as_slice());
    let ghost lv = char_views(ls@);
    let mut out: Vec<(String, (u8, u8, u8))> = Vec::new();
    assert(lv.take(0) =~= seq![]);
    assert(colour_views(out@) =~= seq![]);
    let mut i: usize = 0;
    while i < ls.len()
        invariant
            i <= ls@.len(),
            lv == char_views(ls@),
            colour_views(out@) == colour_entries_of(lv.take(i as int)),
        decreases ls@.len() - i,
    {
        assert(lv[i as int] == ls@[i as int]@);
        assert(lv.take(i + 1).drop_last() =~= lv.take(i as int));
        let ghost before = colour_views(out@);
        let f = split_words(ls[i].as_slice());
        let ghost fv = char_views(f@);
        let mut added = false;
        if f.len() >= 1 && first_is(f[0].as_slice(), '$') {
            assert(fv[0] == f@[0]@);
            let hex = sub_chars(f[0].as_slice(), 1, f[0].len());
            assert(hex@ =~= fv[0].drop_first());
            match parse_hex_number(hex.as_slice()) {
                Some(v) => {
                    let rgb = (((v / 65536) % 256) as u8, ((v / 256) % 256) as u8, (v % 256) as u8);
                    assert(rgb == rgb_of(v));
                    let ghost names = fv.skip(1);
                    let mut j: usize = 1;
                    while j < f.len()
                        invariant
                            1 <= j <= f@.len(),
                            fv == char_views(f@),
                            names == fv.skip(1),
                            rgb == rgb_of(v),
                            colour_views(out@) == before + names.take(j - 1).map_values(
                                |n: Seq<char>| (unicode_lowercase(n), rgb_of(v)),
                            ),
                        decreases f@.len() - j,
                    {
                        assert(fv[j as int] == f@[j as int]@);
                        assert(names[j - 1] == fv[j as int]);
                        let name = from_chars(f[j].as_slice());
                        let low = to_unicode_lowercase(name.as_str());
                        let ghost mid = colour_views(out@);
                        out.push((low, rgb));
                        assert(colour_views(out@) =~= mid.push((unicode_lowercase(fv[j as int]), rgb_of(v))));
                        assert(names.take(j as int).drop_last() =~= names.take(j - 1));
                        assert(names.take(j as int).map_values(|n: Seq<char>| (unicode_lowercase(n), rgb_of(v)))
                            =~= names.take(j - 1).map_values(|n: Seq<char>| (unicode_lowercase(n), rgb_of(v))).push(
                            (unicode_lowercase(fv[j as int]), rgb_of(v)),
                        ));
                        j += 1;
                    }
                    assert(names.take(j - 1) =~= names);
                    added = true;
                },
                None => {},
            }
        }
        if !added {
            assert(colour_views(out@) =~= before + colour_line_entries(lv[i as int]));
        }
        i += 1;
    }
    assert(lv.take(i as int) =~= lv);
    out
}

/// The colour of the last entry named `key`, if any.
pub open spec fn colour_in(entries: Seq<(Seq<char>, (u8, u8, u8))>, key: Seq<char>) -> Option<(u8, u8, u8)>
    decreases entries.len(),
{
    if entries.len() == 0 {
        None
    } else if entries.last().0 == key {
        Some(entries.last().1)
    } else {
        colour_in(entries.drop_last(), key)
    }
}

/// The colour that a kit colour name shows: the last entry with its Unicode
/// lower case, else white.
pub open spec fn colour_shown(entries: Seq<(Seq<char>, (u8, u8, u8))>, name: Seq<char>) -> (u8, u8, u8) {
    match colour_in(entries, unicode_lowercase(name)) {
        Some(c) => c,
        None => (255u8, 255u8, 255u8),
    }
}

/// The colour shown for the kit colour `name` (see `colour_shown`).
pub fn colour_for(entries: &Vec<(String, (u8, u8, u8))>, name: &str) -> (r: (u8, u8, u8))
    ensures
        r == colour_shown(colour_views(entries@), name@),
{
    let ghost ev = colour_views(entries@);
    let key = to_unicode_lowercase(name);
    let kc = string_chars(&key);
    let mut i: usize = entries.len();
    assert(ev.take(i as int) =~= ev);
    while i > 0
        invariant
            i <= entries@.len(),
            ev == colour_views(entries@),
            kc@ == unicode_lowercase(name@),
            colour_in(ev.take(i as int), kc@) == colour_in(ev, kc@),
        decreases i,
    {
        let e = &entries[i - 1];
        assert(ev[i - 1] == (e.0@, e.1));
        assert(ev.take(i as int).last() == ev[i - 1]);
        assert(ev.take(i as int).drop_last() =~= ev.take(i - 1));
        if same_chars(string_chars(&e.0).as_slice(), kc.as_slice()) {
            return e.1;
        }
        i -= 1;
    }
    assert(ev.take(0) =~= seq![]);
    (255, 255, 255)
}

// ---------------------------------------------------------------------------
// Stepping through the palette
// ---------------------------------------------------------------------------

/// The first name of `palette` equal to `name` up to ASCII case.
pub open spec fn palette_position(palette: Seq<Seq<char>>, name: Seq<char>) -> Option<nat>
    decreases palette.len(),
{
    if palette.len() == 0 {
        None
    } else if eq_ignore_case(palette[0], name) {
        Some(0)
    } else {
        match palette_position(palette.drop_first(), name) {
            Some(i) => Some(i + 1),
            None => None,
        }
    }
}

/// The palette entry one step from the colour `current` (the first entry
/// where `current` is not in the palette): the next one, or the previous one
/// when `forward` is false, going round at either end.
pub open spec fn stepped_colour(palette: Seq<Seq<char>>, current: Seq<char>, forward: bool) -> int {
    let i: int = match palette_position(palette, current) {
        Some(k) => k as int,
        None => 0,
    };
    if forward {
        if i + 1 == palette.len() { 0 } else { i + 1 }
    } else {
        if i == 0 { palette.len() - 1 } else { i - 1 }
    }
}

proof fn lemma_palette_position(palette: Seq<Seq<char>>, name: Seq<char>, i: int)
    requires
        0 <= i <= palette.len(),
        forall|j: int| 0 <= j < i ==> !eq_ignore_case(#[trigger] palette[j], name),
    ensures
        i < palette.len() && eq_ignore_case(palette[i], name) ==> palette_position(palette, name) == Some(i as nat),
        i == palette.len() ==> palette_position(palette, name) is None,
    decreases i,
{
    if i > 0 {
        assert forall|j: int| 0 <= j < i - 1 implies !eq_ignore_case(#[trigger] palette.drop_first()[j], name) by {
            assert(palette.drop_first()[j] == palette[j + 1]);
        }
        if i < palette.len() {
            assert(palette.drop_first()[i - 1] == palette[i]);
        }
        lemma_palette_position(palette.drop_first(), name, i - 1);
    }
}

/// The index of the palette entry one step from `current` (see
/// `stepped_colour`).
pub fn step_colour(palette: &Vec<String>, current: &str, forward: bool) -> (r: usize)
    requires
        palette@.len() > 0,
    ensures
        r == stepped_colour(string_views(palette@), current@, forward),
        r < palette@.len(),
{
    let ghost pv = string_views(palette@);
    let c = to_chars(current);
    let mut i: usize = 0;
    let mut found = false;
    while i < palette.len() && !found
        invariant
            i <= palette@.len(),
            pv == string_views(palette@),
            c@ == current@,
            found ==> i < palette@.len() && palette_position(pv, current@) == Some(i as nat),
            !found ==> forall|j: int| 0 <= j < i ==> !eq_ignore_case(#[trigger] pv[j], current@),
        decreases palette@.len() - i, if found { 0int } else { 1int },
    {
        assert(pv[i as int] == palette@[i as int]@);
        if same_ignoring_case(string_chars(&palette[i]).as_slice(), c.as_slice()) {
            proof {
                lemma_palette_position(pv, current@, i as int);
            }
            found = true;
        } else {
            i += 1;
        }
    }
    proof {
        if !found {
            lemma_palette_position(pv, current@, i as int);
        }
    }
    let at: usize = if found { i } else { 0 };
    let n = palette.len();
    if forward {
        if at + 1 == n { 0 } else { at + 1 }
    } else {
        if at == 0 { n - 1 } else { at - 1 }
    }
}

// ---------------------------------------------------------------------------
// Writing over a team or player file
// ---------------------------------------------------------------------------

/// The message for a team or player file that changed since it was read.
pub open spec fn changed_since_read(path: Seq<char>) -> Seq<char> {
    path + " è cambiato esternamente."@
}

/// Whether the file at `path`, read from `source`, may be written over,
/// given what reading it again gave (`on_disk`): the read error, the
/// message of a file changed since, or `Ok`.
pub fn check_unchanged(path: &str, source: &Vec<u8>, on_disk: &Result<Vec<u8>, String>) -> (r: Result<(), String>)
    ensures
        match on_disk {
            Err(e) => r matches Err(m) && m@ == e@,
            Ok(b) => if b@ == source@ {
                r is Ok
            } else {
                r matches Err(m) && m@ == changed_since_read(path@)
            },
        },
{
    match on_disk {
        Err(e) => Err(copy_string(e)),
        Ok(b) => {
            if same_bytes(b, source) {
                Ok(())
            } else {
                let mut m = to_chars(path);
                push_str(&mut m, " è cambiato esternamente.");
                Err(from_chars(m.as_slice()))
            }
        },
    }
}

/// Whether the reader of a team file takes the line `raw` (a piece with its
/// ending) as a reputation line: `! reputation n` with a number `n`.
pub open spec fn reads_reputation(raw: Seq<char>) -> bool {
    let line = trim(line_body(raw));
    let f = words(line.drop_first());
    starts_with(line, '!') && f.len() == 2 && f[0] == "reputation"@ && parse_u32(f[1]) is Some
}

proof fn lemma_line_ending_kinds(raw: Seq<char>)
    ensures
        line_ending(raw) == Seq::<char>::empty() || line_ending(raw) == seq!['\n'] || line_ending(raw) == seq!['\r', '\n'],
        raw == line_body(raw) + line_ending(raw),
{
    let b = line_body(raw);
    assert(b.len() <= raw.len());
    assert(raw =~= b + raw.skip(b.len() as int));
    if raw.len() >= 2 && raw.last() == '\n' && raw[raw.len() - 2] == '\r' {
        assert(line_ending(raw) =~= seq!['\r', '\n']);
    } else if raw.len() >= 1 && raw.last() == '\n' {
        assert(line_ending(raw) =~= seq!['\n']);
    } else {
        assert(line_ending(raw) =~= Seq::<char>::empty());
    }
}

/// Writing a team gives every reputation line of its file the team's
/// reputation: the line written in place of one that the reader takes as a
/// reputation line reads, whatever the reader has met before, as the team's
/// reputation.
pub proof fn law_team_writes_its_reputation(t: TeamModel, st: TeamRender, raw: Seq<char>, before: TeamScan)
    requires
        reads_reputation(raw),
    ensures
        ({
            let next = team_write_step(t, st, raw);
            let written = next.output.skip(st.output.len() as int);
            &&& next.output == st.output + written
            &&& next.reputation_seen
            &&& team_line_step(before, line_body(written)).reputation == t.reputation
        }),
{
    let body = line_body(raw);
    let tb = trim(body);
    let f = instruction_words(tb);
    assert(f == words(tb.drop_first()));
    assert(eq_ignore_case(f[0], "reputation"@));
    let ending = line_ending(raw);
    lemma_line_ending_kinds(raw);
    let written = reputation_line(t.reputation, ending);
    let next = team_write_step(t, st, raw);
    assert(next.output == st.output + written);
    assert(next.output.skip(st.output.len() as int) =~= written);
    lemma_reputation_line_reads(t.reputation, ending, before);
}

/// The line `! reputation n`, with any of the three line endings, reads as
/// the reputation `n`.
proof fn lemma_reputation_line_reads(n: u32, ending: Seq<char>, before: TeamScan)
    requires
        ending == Seq::<char>::empty() || ending == seq!['\n'] || ending == seq!['\r', '\n'],
    ensures
        team_line_step(before, line_body(reputation_line(n, ending))).reputation == n,
        reads_reputation(reputation_line(n, ending)),
{
    let d = decimal(n as nat);
    lemma_decimal_reads_back(n as nat);
    lemma_parse_decimal(n);
    reveal_strlit("! reputation ");
    reveal_strlit("reputation");
    let x = "! reputation "@ + d;
    let written = reputation_line(n, ending);
    assert(written =~= x + ending);
    assert(x.last() == d.last());
    assert('0' <= d[d.len() - 1] <= '9');
    assert(line_body(written) =~= x);
    assert(x[0] == '!');
    assert(!is_ws(x[0]));
    assert(trim_start(x) == x);
    assert(!is_ws(x.last()));
    assert(trim_end(x) == x);
    assert(trim(line_body(written)) == x);
    assert(x.drop_first() =~= seq![' '] + "reputation"@ + seq![' '] + d);
    assert forall|i: int| 0 <= i < "reputation"@.len() implies !is_ws(#[trigger] "reputation"@[i]) by {
    }
    lemma_words_two("reputation"@, d);
    assert(team_marks().contains('!')) by {
        assert(team_marks()[0] == '!');
    }
    assert(starts_with_any(x, team_marks()));
    assert(!starts_with(x, '$'));
}

/// Writing a team whose file has no reputation line adds one, on a line of
/// its own after the original text, that reads as the team's reputation.
pub proof fn law_team_without_reputation_line_gets_one(name: Seq<char>, t: TeamModel, before: TeamScan)
    requires
        ({
            let source = source_text(t.source_bytes);
            let nl = newline_of(source);
            let start = TeamRender {
                output: if source.len() == 0 {
                    "! Name \""@ + name + "\""@ + nl
                } else {
                    seq![]
                },
                seen: nothing_seen(),
                reputation_seen: false,
                player_index: 0,
                in_details: false,
            };
            !team_write_fold(t, start, pieces(source)).reputation_seen
        }),
    ensures
        exists|pre: Seq<char>, ending: Seq<char>, post: Seq<char>|
            #![trigger pre.add(reputation_line(t.reputation, ending)).add(post)]
            team_text(name, t) == pre.add(reputation_line(t.reputation, ending)).add(post) && (pre.len() == 0 || pre.last()
                == '\n') && team_line_step(before, line_body(reputation_line(t.reputation, ending))).reputation == t.reputation,
{
    let source = source_text(t.source_bytes);
    let nl = newline_of(source);
    let start = TeamRender {
        output: if source.len() == 0 {
            "! Name \""@ + name + "\""@ + nl
        } else {
            seq![]
        },
        seen: nothing_seen(),
        reputation_seen: false,
        player_index: 0,
        in_details: false,
    };
    let st = team_write_fold(t, start, pieces(source));
    let pre = closed_text(st.output, nl);
    let post = missing_kit_lines(t, st.seen, nl, 15);
    reveal_strlit("\r\n");
    reveal_strlit("\n");
    assert(nl == seq!['\n'] || nl == seq!['\r', '\n']);
    assert(nl.last() == '\n');
    if st.output.len() > 0 && st.output.last() != '\n' {
        assert(pre.last() == nl.last());
    }
    lemma_reputation_line_reads(t.reputation, nl, before);
    assert(team_text(name, t) == pre.add(reputation_line(t.reputation, nl)).add(post));
}

} // verus!
