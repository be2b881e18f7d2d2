//! League files: their divisions and clubs, the parser of the league text
//! format and of the country blocks of the international file, and the
//! edits made to a league (swapping and moving clubs, checking a division).
use vstd::prelude::*;
use crate::country_display::CountryNames;
use crate::text::{blank, char_views, chars_are, copy_string, decimal, eq_ignore_case, first_in, from_chars, instruction_parts, is_blank, lemma_text_lt_total, lemma_text_lt_trans, lines, lower, lowered, parse_number, parse_u32, push_all, push_decimal, push_str, same_chars, same_ignoring_case, split_char, split_instruction, split_lines, split_on, starts_with, starts_with_any, string_chars, string_views, sub_chars, text_less, text_lt, to_chars, trim, trimmed, unquote, unquoted};

verus! {

// ---------------------------------------------------------------------------
// Data and its model
// ---------------------------------------------------------------------------

/// One division of a league: its properties and its clubs, in file order.
#[derive(Debug, Clone, PartialEq)]
pub struct Division {
    pub name: String,
    pub level: Option<u32>,
    pub promotions: Option<u32>,
    pub relegations: Option<u32>,
    pub reputation: Option<u32>,
    pub teams: Vec<String>,
}

/// What a division holds, as plain values.
pub struct DivisionModel {
    pub name: Seq<char>,
    pub level: Option<u32>,
    pub promotions: Option<u32>,
    pub relegations: Option<u32>,
    pub reputation: Option<u32>,
    pub teams: Seq<Seq<char>>,
}

impl View for Division {
    type V = DivisionModel;

    open spec fn view(&self) -> DivisionModel {
        DivisionModel {
            name: self.name@,
            level: self.level,
            promotions: self.promotions,
            relegations: self.relegations,
            reputation: self.reputation,
            teams: string_views(self.teams@),
        }
    }
}

/// The models of a sequence of divisions.
pub open spec fn division_views(v: Seq<Division>) -> Seq<DivisionModel> {
    v.map_values(|d: Division| d@)
}

/// A league file as loaded: the divisions, the name archives, the country,
/// the bytes read from disk and, for each division, the index of the
/// division of those bytes that it comes from (`None` for a new one).
#[derive(Debug, Clone)]
pub struct LeagueFile {
    pub division_sources: Vec<Option<usize>>,
    pub name_files: Vec<String>,
    pub source_bytes: Vec<u8>,
    pub path: String,
    pub country: String,
    pub divisions: Vec<Division>,
    pub warnings: Vec<String>,
}

/// What a league file holds, as plain values.
pub struct LeagueModel {
    pub division_sources: Seq<Option<usize>>,
    pub name_files: Seq<Seq<char>>,
    pub source_bytes: Seq<u8>,
    pub path: Seq<char>,
    pub country: Seq<char>,
    pub divisions: Seq<DivisionModel>,
    pub warnings: Seq<Seq<char>>,
}

impl View for LeagueFile {
    type V = LeagueModel;

    open spec fn view(&self) -> LeagueModel {
        LeagueModel {
            division_sources: self.division_sources@,
            name_files: string_views(self.name_files@),
            source_bytes: self.source_bytes@,
            path: self.path@,
            country: self.country@,
            divisions: division_views(self.divisions@),
            warnings: string_views(self.warnings@),
        }
    }
}

/// A country block of the international file.
#[derive(Debug, Clone, PartialEq)]
pub struct InternationalCountry {
    pub name: String,
    pub name_files: Vec<String>,
    pub reputation: Option<u32>,
    pub clubs: Vec<String>,
}

/// What a country block holds, as plain values.
pub struct CountryModel {
    pub name: Seq<char>,
    pub name_files: Seq<Seq<char>>,
    pub reputation: Option<u32>,
    pub clubs: Seq<Seq<char>>,
}

impl View for InternationalCountry {
    type V = CountryModel;

    open spec fn view(&self) -> CountryModel {
        CountryModel {
            name: self.name@,
            name_files: string_views(self.name_files@),
            reputation: self.reputation,
            clubs: string_views(self.clubs@),
        }
    }
}

/// The models of a sequence of country blocks.
pub open spec fn country_views(v: Seq<InternationalCountry>) -> Seq<CountryModel> {
    v.map_values(|c: InternationalCountry| c@)
}

// ---------------------------------------------------------------------------
// Small executable helpers on the data
// ---------------------------------------------------------------------------

/// A string made of the characters of a literal.
pub fn literal(s: &str) -> (r: String)
    ensures
        r@ == s@,
{
    let v = to_chars(s);
    from_chars(v.as_slice())
}

/// A copy of a sequence of strings.
pub fn copy_strings(v: &Vec<String>) -> (r: Vec<String>)
    ensures
        string_views(r@) == string_views(v@),
        r@.len() == v@.len(),
{
    let mut r: Vec<String> = Vec::new();
    let mut i: usize = 0;
    while i < v.len()
        invariant
            i <= v@.len(),
            string_views(r@) == string_views(v@.take(i as int)),
        decreases v@.len() - i,
    {
        let s = copy_string(&v[i]);
        let ghost before = string_views(r@);
        r.push(s);
        assert(string_views(r@) =~= before.push(s@));
        assert(string_views(v@.take(i + 1)) =~= string_views(v@.take(i as int)).push(v@[i as int]@));
        i += 1;
    }
    assert(v@.take(v@.len() as int) =~= v@);
    r
}

impl Division {
    /// An empty division with the given name and no property.
    pub fn named(name: String) -> (r: Division)
        ensures
            r@ == (DivisionModel {
                name: name@,
                level: None,
                promotions: None,
                relegations: None,
                reputation: None,
                teams: seq![],
            }),
    {
        let r = Division {
            name,
            level: None,
            promotions: None,
            relegations: None,
            reputation: None,
            teams: Vec::new(),
        };
        assert(string_views(r.teams@) =~= seq![]);
        r
    }

    /// A copy of the division.
    pub fn duplicate(&self) -> (r: Division)
        ensures
            r@ == self@,
    {
        Division {
            name: copy_string(&self.name),
            level: self.level,
            promotions: self.promotions,
            relegations: self.relegations,
            reputation: self.reputation,
            teams: copy_strings(&self.teams),
        }
    }
}

impl Default for Division {
    fn default() -> (r: Division)
        ensures
            r@ == (DivisionModel {
                name: seq![],
                level: None,
                promotions: None,
                relegations: None,
                reputation: None,
                teams: seq![],
            }),
    {
        Division::named(String::new())
    }
}

// ---------------------------------------------------------------------------
// The league text format
// ---------------------------------------------------------------------------

/// The warning of a line: `riga N: message (line)`, numbering lines from one.
pub open spec fn line_warning(index: nat, message: Seq<char>, line: Seq<char>) -> Seq<char> {
    "riga "@ + decimal(index + 1) + ": "@ + message + " ("@ + line + ")"@
}

/// The warning of a line without its text: `riga N: message`.
pub open spec fn bare_line_warning(index: nat, message: Seq<char>) -> Seq<char> {
    "riga "@ + decimal(index + 1) + ": "@ + message
}

/// What the parser has gathered after some lines of a league file.
pub struct LeagueScan {
    pub country: Seq<char>,
    pub name_files: Seq<Seq<char>>,
    pub divisions: Seq<DivisionModel>,
    pub warnings: Seq<Seq<char>>,
    pub current: Option<nat>,
    pub in_cup: bool,
}

/// The state before the first line.
pub open spec fn league_scan_start() -> LeagueScan {
    LeagueScan {
        country: seq![],
        name_files: seq![],
        divisions: seq![],
        warnings: seq![],
        current: None,
        in_cup: false,
    }
}

/// The instruction keys that a cup block may hold after `+`.
pub open spec fn is_cup_key(k: Seq<char>) -> bool {
    ||| k == "country"@
    ||| k == "reputation"@
    ||| k == "round"@
    ||| k == "add"@
    ||| k == "draw"@
    ||| k == "matches"@
    ||| k == "week"@
    ||| k == "groups"@
    ||| k == "venue"@
    ||| k == "international"@
    ||| k == "exclude"@
    ||| k == "noexclude"@
    ||| k == "nations"@
    ||| k == "year"@
    ||| k == "offset"@
}

/// Whether `k` (already in lower case) names a division property.
pub open spec fn is_property_key(k: Seq<char>) -> bool {
    k == "division"@ || k == "promotions"@ || k == "relegations"@ || k == "reputation"@
}

/// The division with the property named `k` set to `n`.
pub open spec fn with_property(d: DivisionModel, k: Seq<char>, n: u32) -> DivisionModel {
    if k == "division"@ {
        DivisionModel { level: Some(n), ..d }
    } else if k == "promotions"@ {
        DivisionModel { promotions: Some(n), ..d }
    } else if k == "relegations"@ {
        DivisionModel { relegations: Some(n), ..d }
    } else {
        DivisionModel { reputation: Some(n), ..d }
    }
}

/// The state after the line `raw`, numbered `index` from zero.
pub open spec fn league_step(st: LeagueScan, index: nat, raw: Seq<char>) -> LeagueScan {
    let line = trim(raw);
    let warn = |m: Seq<char>| LeagueScan { warnings: st.warnings.push(line_warning(index, m, line)), ..st };
    if line.len() == 0 || starts_with_any(line, seq!['#', ';']) {
        st
    } else if starts_with(line, ':') {
        let name = trim(line.drop_first());
        let d = DivisionModel {
            name: name,
            level: None,
            promotions: None,
            relegations: None,
            reputation: None,
            teams: seq![],
        };
        let st2 = LeagueScan {
            divisions: st.divisions.push(d),
            current: Some(st.divisions.len()),
            in_cup: false,
            ..st
        };
        if name.len() == 0 {
            LeagueScan { warnings: st2.warnings.push(line_warning(index, "Nome divisione mancante"@, line)), ..st2 }
        } else {
            st2
        }
    } else if starts_with(line, '*') {
        LeagueScan { current: None, in_cup: true, ..st }
    } else if starts_with(line, '!') {
        let (key, value) = split_instruction(line.drop_first());
        let k = lower(key);
        if k == "country"@ {
            match unquote(value) {
                Some(c) => if c.len() > 0 {
                    LeagueScan { country: c, ..st }
                } else {
                    warn("Paese mancante o virgolette non valide"@)
                },
                None => warn("Paese mancante o virgolette non valide"@),
            }
        } else if k == "names"@ {
            let parts = split_on(value, '"');
            if parts.len() == 5 {
                LeagueScan { name_files: seq![parts[1], parts[3]], ..st }
            } else {
                st
            }
        } else if k == "intro"@ {
            st
        } else {
            warn("Istruzione non riconosciuta"@)
        }
    } else if starts_with(line, '+') {
        let (key, value) = split_instruction(line.drop_first());
        let k = lower(key);
        match st.current {
            Some(d) => if is_property_key(k) {
                match parse_u32(value) {
                    Some(n) => LeagueScan {
                        divisions: st.divisions.update(d as int, with_property(st.divisions[d as int], k, n)),
                        ..st
                    },
                    None => warn("Valore numerico non valido"@),
                }
            } else {
                warn("Proprietà divisione non riconosciuta"@)
            },
            None => if !st.in_cup || !is_cup_key(k) {
                warn("Istruzione non interpretata"@)
            } else {
                st
            },
        }
    } else {
        match st.current {
            Some(d) => if starts_with_any(line, seq!['$', '@', '=']) {
                warn("Istruzione non riconosciuta"@)
            } else {
                let old = st.divisions[d as int];
                LeagueScan {
                    divisions: st.divisions.update(d as int, DivisionModel { teams: old.teams.push(line), ..old }),
                    ..st
                }
            },
            None => warn("Riga fuori da una divisione"@),
        }
    }
}

/// The state after the given lines.
pub open spec fn league_scan(ls: Seq<Seq<char>>) -> LeagueScan
    decreases ls.len(),
{
    if ls.len() == 0 {
        league_scan_start()
    } else {
        league_step(league_scan(ls.drop_last()), (ls.len() - 1) as nat, ls.last())
    }
}

/// The warnings about each division, from the `i`-th on: a missing level,
/// then a division without clubs.
pub open spec fn division_warnings(ds: Seq<DivisionModel>) -> Seq<Seq<char>>
    decreases ds.len(),
{
    if ds.len() == 0 {
        seq![]
    } else {
        let d = ds[0];
        let a: Seq<Seq<char>> = if d.level is None {
            seq![d.name + ": livello divisione mancante"@]
        } else {
            seq![]
        };
        let b: Seq<Seq<char>> = if d.teams.len() == 0 {
            seq![d.name + ": nessuna squadra"@]
        } else {
            seq![]
        };
        a + b + division_warnings(ds.drop_first())
    }
}

/// The warnings given once all lines are read.
pub open spec fn closing_warnings(st: LeagueScan) -> Seq<Seq<char>> {
    let a: Seq<Seq<char>> = if st.country.len() == 0 {
        seq!["Paese non definito con ! Country"@]
    } else {
        seq![]
    };
    let b: Seq<Seq<char>> = if st.divisions.len() == 0 {
        seq!["Nessuna divisione trovata"@]
    } else {
        seq![]
    };
    a + b + division_warnings(st.divisions)
}

/// `Some(0), Some(1), ...`: every division comes from the division of the
/// text at the same place.
pub open spec fn identity_sources(n: nat) -> Seq<Option<usize>> {
    Seq::new(n, |i: int| Some(i as usize))
}

/// The league that the text `text` of the file at `path` describes.
pub open spec fn parsed_league(path: Seq<char>, text: Seq<char>) -> LeagueModel {
    let st = league_scan(lines(text));
    LeagueModel {
        division_sources: identity_sources(st.divisions.len()),
        name_files: st.name_files,
        source_bytes: vstd::utf8::encode_utf8(text),
        path: path,
        country: st.country,
        divisions: st.divisions,
        warnings: st.warnings + closing_warnings(st),
    }
}

/// The parser's state while it reads a league file.
struct LeagueScanner {
    country: String,
    name_files: Vec<String>,
    divisions: Vec<Division>,
    warnings: Vec<String>,
    current: Option<usize>,
    in_cup: bool,
}

impl View for LeagueScanner {
    type V = LeagueScan;

    closed spec fn view(&self) -> LeagueScan {
        LeagueScan {
            country: self.country@,
            name_files: string_views(self.name_files@),
            divisions: division_views(self.divisions@),
            warnings: string_views(self.warnings@),
            current: match self.current {
                Some(d) => Some(d as nat),
                None => None,
            },
            in_cup: self.in_cup,
        }
    }
}

impl LeagueScanner {
    spec fn wf(&self) -> bool {
        self.current matches Some(d) ==> d < self.divisions@.len()
    }
}

/// `riga N: message (line)`.
fn make_line_warning(index: usize, message: &str, line: &[char]) -> (r: String)
    requires
        index < usize::MAX,
    ensures
        r@ == line_warning(index as nat, message@, line@),
{
    let mut v: Vec<char> = Vec::new();
    push_str(&mut v, "riga ");
    push_decimal(&mut v, index as u64 + 1);
    push_str(&mut v, ": ");
    push_str(&mut v, message);
    push_str(&mut v, " (");
    push_all(&mut v, line);
    push_str(&mut v, ")");
    assert(v@ =~= line_warning(index as nat, message@, line@));
    from_chars(v.as_slice())
}

/// `riga N: message`.
pub fn make_bare_line_warning(index: usize, message: &str) -> (r: String)
    requires
        index < usize::MAX,
    ensures
        r@ == bare_line_warning(index as nat, message@),
{
    let mut v: Vec<char> = Vec::new();
    push_str(&mut v, "riga ");
    push_decimal(&mut v, index as u64 + 1);
    push_str(&mut v, ": ");
    push_str(&mut v, message);
    assert(v@ =~= bare_line_warning(index as nat, message@));
    from_chars(v.as_slice())
}

fn cup_key(k: &[char]) -> (r: bool)
    ensures
        r == is_cup_key(k@),
{
    chars_are(k, "country") || chars_are(k, "reputation") || chars_are(k, "round") || chars_are(
        k,
        "add",
    ) || chars_are(k, "draw") || chars_are(k, "matches") || chars_are(k, "week") || chars_are(
        k,
        "groups",
    ) || chars_are(k, "venue") || chars_are(k, "international") || chars_are(k, "exclude")
        || chars_are(k, "noexclude") || chars_are(k, "nations") || chars_are(k, "year")
        || chars_are(k, "offset")
}

impl LeagueScanner {
    fn warn(&mut self, index: usize, message: &str, line: &[char])
        requires
            index < usize::MAX,
        ensures
            final(self)@ == (LeagueScan {
                warnings: old(self)@.warnings.push(line_warning(index as nat, message@, line@)),
                ..old(self)@
            }),
    {
        let w = make_line_warning(index, message, line);
        let ghost before = string_views(self.warnings@);
        self.warnings.push(w);
        assert(string_views(self.warnings@) =~= before.push(w@));
    }

    fn step(&mut self, index: usize, raw: &[char])
        requires
            old(self).wf(),
            index < usize::MAX,
        ensures
            final(self).wf(),
            final(self)@ == league_step(old(self)@, index as nat, raw@),
    {
        let line = trimmed(raw);
        let ghost st = self@;
        if line.len() == 0 || first_in(line.as_slice(), &['#', ';']) {
            assert(seq!['#', ';'] =~= ['#', ';']@);
            return;
        }
        assert(seq!['#', ';'] =~= ['#', ';']@);
        if line[0] == ':' {
            let rest = sub_chars(line.as_slice(), 1, line.len());
            assert(rest@ =~= line@.drop_first());
            let name = trimmed(rest.as_slice());
            let empty = name.len() == 0;
            let d = Division::named(from_chars(name.as_slice()));
            let ghost before = division_views(self.divisions@);
            self.divisions.push(d);
            assert(division_views(self.divisions@) =~= before.push(d@));
            self.current = Some(self.divisions.len() - 1);
            self.in_cup = false;
            if empty {
                self.warn(index, "Nome divisione mancante", line.as_slice());
            }
            return;
        }
        if line[0] == '*' {
            self.current = None;
            self.in_cup = true;
            return;
        }
        if line[0] == '!' {
            let rest = sub_chars(line.as_slice(), 1, line.len());
            assert(rest@ =~= line@.drop_first());
            let (key, value) = instruction_parts(rest.as_slice());
            let k = lowered(key.as_slice());
            if chars_are(k.as_slice(), "country") {
                match unquoted(value.as_slice()) {
                    Some(c) => {
                        if c.len() > 0 {
                            self.country = from_chars(c.as_slice());
                        } else {
                            self.warn(index, "Paese mancante o virgolette non valide", line.as_slice());
                        }
                    },
                    None => {
                        self.warn(index, "Paese mancante o virgolette non valide", line.as_slice());
                    },
                }
            } else if chars_are(k.as_slice(), "names") {
                let parts = split_char(value.as_slice(), '"');
                if parts.len() == 5 {
                    let a = from_chars(parts[1].as_slice());
                    let b = from_chars(parts[3].as_slice());
                    assert(parts@[1]@ == char_views(parts@)[1]);
                    assert(parts@[3]@ == char_views(parts@)[3]);
                    let mut files: Vec<String> = Vec::new();
                    files.push(a);
                    files.push(b);
                    assert(string_views(files@) =~= seq![a@, b@]);
                    self.name_files = files;
                }
            } else if chars_are(k.as_slice(), "intro") {
            } else {
                self.warn(index, "Istruzione non riconosciuta", line.as_slice());
            }
            return;
        }
        if line[0] == '+' {
            let rest = sub_chars(line.as_slice(), 1, line.len());
            assert(rest@ =~= line@.drop_first());
            let (key, value) = instruction_parts(rest.as_slice());
            let k = lowered(key.as_slice());
            match self.current {
                Some(d) => {
                    let is_level = chars_are(k.as_slice(), "division");
                    let is_promotions = chars_are(k.as_slice(), "promotions");
                    let is_relegations = chars_are(k.as_slice(), "relegations");
                    let is_reputation = chars_are(k.as_slice(), "reputation");
                    if is_level || is_promotions || is_relegations || is_reputation {
                        match parse_number(value.as_slice()) {
                            Some(n) => {
                                let ghost before = division_views(self.divisions@);
                                if is_level {
                                    self.divisions[d].level = Some(n);
                                } else if is_promotions {
                                    self.divisions[d].promotions = Some(n);
                                } else if is_relegations {
                                    self.divisions[d].relegations = Some(n);
                                } else {
                                    self.divisions[d].reputation = Some(n);
                                }
                                assert(division_views(self.divisions@) =~= before.update(
                                    d as int,
                                    with_property(before[d as int], k@, n),
                                ));
                            },
                            None => {
                                self.warn(index, "Valore numerico non valido", line.as_slice());
                            },
                        }
                    } else {
                        self.warn(index, "Proprietà divisione non riconosciuta", line.as_slice());
                    }
                },
                None => {
                    if !self.in_cup || !cup_key(k.as_slice()) {
                        self.warn(index, "Istruzione non interpretata", line.as_slice());
                    }
                },
            }
            return;
        }
        match self.current {
            Some(d) => {
                if first_in(line.as_slice(), &['$', '@', '=']) {
                    assert(seq!['$', '@', '='] =~= ['$', '@', '=']@);
                    self.warn(index, "Istruzione non riconosciuta", line.as_slice());
                } else {
                    assert(seq!['$', '@', '='] =~= ['$', '@', '=']@);
                    let team = from_chars(line.as_slice());
                    let ghost before = division_views(self.divisions@);
                    let ghost old_teams = string_views(self.divisions@[d as int].teams@);
                    self.divisions[d].teams.push(team);
                    assert(string_views(self.divisions@[d as int].teams@) =~= old_teams.push(team@));
                    assert(division_views(self.divisions@) =~= before.update(
                        d as int,
                        DivisionModel { teams: before[d as int].teams.push(line@), ..before[d as int] },
                    ));
                }
            },
            None => {
                self.warn(index, "Riga fuori da una divisione", line.as_slice());
            },
        }
    }
}

pub(crate) fn push_warning(warnings: &mut Vec<String>, w: String)
    ensures
        string_views(final(warnings)@) == string_views(old(warnings)@).push(w@),
{
    let ghost before = string_views(warnings@);
    warnings.push(w);
    assert(string_views(warnings@) =~= before.push(w@));
}

fn concat_literal(a: &String, s: &str) -> (r: String)
    ensures
        r@ == a@ + s@,
{
    let mut v = string_chars(a);
    push_str(&mut v, s);
    from_chars(v.as_slice())
}

/// Parses a league file. `text` is its decoded content; warnings name the
/// line and the problem, and the bytes kept are the UTF-8 of `text`.
pub fn parse_league(path: &str, text: &str) -> (r: LeagueFile)
    ensures
        r@ == parsed_league(path@, text@),
{
    let chars = to_chars(text);
    let ls = split_lines(chars.as_slice());
    let mut scanner = LeagueScanner {
        country: String::new(),
        name_files: Vec::new(),
        divisions: Vec::new(),
        warnings: Vec::new(),
        current: None,
        in_cup: false,
    };
    assert(string_views(scanner.name_files@) =~= seq![]);
    assert(string_views(scanner.warnings@) =~= seq![]);
    assert(division_views(scanner.divisions@) =~= seq![]);
    assert(scanner@ == league_scan_start());
    let mut i: usize = 0;
    while i < ls.len()
        invariant
            i <= ls@.len(),
            char_views(ls@) == lines(text@),
            scanner.wf(),
            scanner@ == league_scan(char_views(ls@).take(i as int)),
        decreases ls@.len() - i,
    {
        scanner.step(i, ls[i].as_slice());
        proof {
            let all = char_views(ls@);
            assert(all.take(i + 1).drop_last() =~= all.take(i as int));
            assert(all.take(i + 1).last() == ls@[i as int]@);
        }
        i += 1;
    }
    assert(char_views(ls@).take(i as int) =~= lines(text@));
    let ghost st = scanner@;
    let mut warnings = scanner.warnings;
    if scanner.country.as_str().is_empty() {
        push_warning(&mut warnings, literal("Paese non definito con ! Country"));
    }
    if scanner.divisions.len() == 0 {
        push_warning(&mut warnings, literal("Nessuna divisione trovata"));
    }
    assert(st.divisions.skip(0) =~= st.divisions);
    assert(string_views(warnings@) + division_warnings(st.divisions) =~= st.warnings
        + closing_warnings(st));
    let mut j: usize = 0;
    while j < scanner.divisions.len()
        invariant
            j <= scanner.divisions@.len(),
            division_views(scanner.divisions@) == st.divisions,
            string_views(warnings@) + division_warnings(st.divisions.skip(j as int)) == st.warnings
                + closing_warnings(st),
        decreases scanner.divisions@.len() - j,
    {
        let ghost rest = st.divisions.skip(j as int);
        assert(rest[0] == scanner.divisions@[j as int]@);
        assert(rest.drop_first() =~= st.divisions.skip(j + 1));
        let ghost w0 = string_views(warnings@);
        if scanner.divisions[j].level.is_none() {
            push_warning(&mut warnings, concat_literal(&scanner.divisions[j].name, ": livello divisione mancante"));
        }
        if scanner.divisions[j].teams.len() == 0 {
            push_warning(&mut warnings, concat_literal(&scanner.divisions[j].name, ": nessuna squadra"));
        }
        assert(string_views(warnings@) + division_warnings(st.divisions.skip(j + 1)) =~= w0 + division_warnings(rest));
        j += 1;
    }
    assert(st.divisions.skip(j as int) =~= seq![]);
    assert(string_views(warnings@) =~= st.warnings + closing_warnings(st));
    let mut sources: Vec<Option<usize>> = Vec::new();
    let mut k: usize = 0;
    while k < scanner.divisions.len()
        invariant
            k <= scanner.divisions@.len(),
            sources@ == identity_sources(k as nat),
        decreases scanner.divisions@.len() - k,
    {
        sources.push(Some(k));
        k += 1;
        assert(sources@ =~= identity_sources(k as nat));
    }
    let bytes = vstd::slice::slice_to_vec(text.as_bytes());
    LeagueFile {
        division_sources: sources,
        name_files: scanner.name_files,
        source_bytes: bytes,
        path: literal(path),
        country: scanner.country,
        divisions: scanner.divisions,
        warnings,
    }
}


// ---------------------------------------------------------------------------
// Edits of a league
// ---------------------------------------------------------------------------

/// The club at `p` (division, place), if there is one.
pub open spec fn club_at(ds: Seq<DivisionModel>, p: (usize, usize)) -> Option<Seq<char>> {
    if p.0 < ds.len() && p.1 < ds[p.0 as int].teams.len() {
        Some(ds[p.0 as int].teams[p.1 as int])
    } else {
        None
    }
}

/// The division `d` with `name` at place `t`.
pub open spec fn with_team(d: DivisionModel, t: int, name: Seq<char>) -> DivisionModel {
    DivisionModel { teams: d.teams.update(t, name), ..d }
}

/// The divisions with the clubs at `s` and `t` exchanged.
pub open spec fn swapped(ds: Seq<DivisionModel>, s: (usize, usize), t: (usize, usize)) -> Seq<DivisionModel> {
    let a = ds[s.0 as int].teams[s.1 as int];
    let b = ds[t.0 as int].teams[t.1 as int];
    let ds1 = ds.update(s.0 as int, with_team(ds[s.0 as int], s.1 as int, b));
    ds1.update(t.0 as int, with_team(ds1[t.0 as int], t.1 as int, a))
}

/// Number of divisions whose level is `level`.
pub open spec fn level_count(ds: Seq<DivisionModel>, level: Option<u32>) -> nat
    decreases ds.len(),
{
    if ds.len() == 0 {
        0
    } else {
        level_count(ds.drop_last(), level) + if ds.last().level == level {
            1nat
        } else {
            0nat
        }
    }
}

/// Index of the first division whose level is `level`.
pub open spec fn first_with_level(ds: Seq<DivisionModel>, level: Option<u32>) -> Option<nat>
    decreases ds.len(),
{
    if ds.len() == 0 {
        None
    } else if ds[0].level == level {
        Some(0)
    } else {
        match first_with_level(ds.drop_first(), level) {
            Some(i) => Some(i + 1),
            None => None,
        }
    }
}

/// Where the club at (`division`, `position`) goes when it moves one place
/// up or down: the next place in its division or, at its border, the last
/// place of the division one level above or the first of the one below.
/// There is no target when a level is missing or held by several divisions,
/// or when the adjacent division is empty.
pub open spec fn move_target_of(ds: Seq<DivisionModel>, division: usize, position: usize, up: bool) -> Option<(usize, usize)> {
    if division >= ds.len() || position >= ds[division as int].teams.len() {
        None
    } else if up && position > 0 {
        Some((division, (position - 1) as usize))
    } else if !up && position + 1 < ds[division as int].teams.len() {
        Some((division, (position + 1) as usize))
    } else {
        match ds[division as int].level {
            None => None,
            Some(level) => {
                if level_count(ds, Some(level)) != 1 {
                    None
                } else {
                    let adjacent: Option<u32> = if up {
                        if level == 0 { None } else { Some((level - 1) as u32) }
                    } else {
                        if level == u32::MAX { None } else { Some((level + 1) as u32) }
                    };
                    match adjacent {
                        None => None,
                        Some(a) => {
                            if level_count(ds, Some(a)) != 1 {
                                None
                            } else {
                                match first_with_level(ds, Some(a)) {
                                    Some(i) => if ds[i as int].teams.len() == 0 {
                                        None
                                    } else {
                                        Some((i as usize, if up {
                                            (ds[i as int].teams.len() - 1) as usize
                                        } else {
                                            0usize
                                        }))
                                    },
                                    None => None,
                                }
                            }
                        },
                    }
                }
            },
        }
    }
}

/// The places of `club` in the division `d` whose clubs are `teams`, from
/// place `0` up to `n`.
pub open spec fn places_in(teams: Seq<Seq<char>>, d: usize, club: Seq<char>, n: nat) -> Seq<(usize, usize)>
    decreases n,
{
    if n == 0 {
        seq![]
    } else {
        let before = places_in(teams, d, club, (n - 1) as nat);
        if teams[n - 1] == club {
            before.push((d, (n - 1) as usize))
        } else {
            before
        }
    }
}

/// The places of `club` in the first `n` divisions, division by division.
pub open spec fn club_places(ds: Seq<DivisionModel>, club: Seq<char>, n: nat) -> Seq<(usize, usize)>
    decreases n,
{
    if n == 0 {
        seq![]
    } else {
        club_places(ds, club, (n - 1) as nat) + places_in(
            ds[n - 1].teams,
            (n - 1) as usize,
            club,
            ds[n - 1].teams.len(),
        )
    }
}

/// Whether some division other than `index` has level `level`.
pub open spec fn level_taken_elsewhere(ds: Seq<DivisionModel>, index: int, level: u32) -> bool {
    exists|o: int| 0 <= o < ds.len() && o != index && #[trigger] ds[o].level == Some(level)
}

/// Whether some division has a level above `level`.
pub open spec fn some_level_above(ds: Seq<DivisionModel>, level: u32) -> bool {
    exists|o: int| 0 <= o < ds.len() && (#[trigger] ds[o].level matches Some(l) && l > level)
}

/// One message when `c` holds, none otherwise.
pub open spec fn message_if(c: bool, m: Seq<char>) -> Seq<Seq<char>> {
    if c {
        seq![m]
    } else {
        seq![]
    }
}

/// The problem of promotions that differ from the relegations of the
/// first division one level above.
pub open spec fn above_issue(ds: Seq<DivisionModel>, d: DivisionModel, level: u32) -> Seq<Seq<char>> {
    let above_level: Option<u32> = if level == 0 { None } else { Some((level - 1) as u32) };
    match first_with_level(ds, above_level) {
        Some(a) => message_if(
            d.promotions != ds[a as int].relegations,
            "Promozioni: devono corrispondere alle retrocessioni di "@ + ds[a as int].name + "."@,
        ),
        None => seq![],
    }
}

/// The problem of relegations that differ from the promotions of the first
/// division one level below or, when there is none and no level is higher,
/// of relegations from the last division.
pub open spec fn below_issue(ds: Seq<DivisionModel>, d: DivisionModel, level: u32) -> Seq<Seq<char>> {
    let below_level: Option<u32> = if level == u32::MAX { None } else { Some((level + 1) as u32) };
    match first_with_level(ds, below_level) {
        Some(b) => message_if(
            d.relegations != ds[b as int].promotions,
            "Retrocessioni: devono corrispondere alle promozioni di "@ + ds[b as int].name + "."@,
        ),
        None => message_if(
            !some_level_above(ds, level) && (d.relegations matches Some(v) && v != 0),
            "Retrocessioni: l'ultima divisione deve avere zero retrocessioni."@,
        ),
    }
}

/// The problems of the level `level` of the division `index`.
pub open spec fn level_issues_of(ds: Seq<DivisionModel>, index: int, level: u32) -> Seq<Seq<char>> {
    let d = ds[index];
    message_if(level == 0, "Livello: deve essere maggiore di zero."@)
        + message_if(level_taken_elsewhere(ds, index, level), "Livello: già occupato da un'altra divisione."@)
        + message_if(
            level == 1 && (d.promotions matches Some(v) && v != 0),
            "Promozioni: la prima divisione deve avere zero promozioni."@,
        )
        + above_issue(ds, d, level)
        + below_issue(ds, d, level)
}

/// The problems of the division `index`, in the order in which they are
/// checked: its name, its level, its promotions and relegations against the
/// adjacent levels, its reputation.
pub open spec fn division_issues_of(ds: Seq<DivisionModel>, index: int) -> Seq<Seq<char>> {
    let d = ds[index];
    let level_issues: Seq<Seq<char>> = match d.level {
        None => seq![],
        Some(level) => level_issues_of(ds, index, level),
    };
    message_if(trim(d.name).len() == 0, "Nome: inserisci il nome della divisione."@) + level_issues
        + message_if(
            d.reputation matches Some(v) && !(1 <= v <= 20),
            "Reputazione: usa un valore da 1 a 20."@,
        )
}

proof fn lemma_level_count_step(ds: Seq<DivisionModel>, i: int, level: Option<u32>)
    requires
        0 <= i < ds.len(),
    ensures
        level_count(ds.take(i + 1), level) == level_count(ds.take(i), level) + if ds[i].level == level {
            1nat
        } else {
            0nat
        },
{
    assert(ds.take(i + 1).drop_last() =~= ds.take(i));
}

proof fn lemma_first_with_level(ds: Seq<DivisionModel>, level: Option<u32>, i: int)
    requires
        0 <= i <= ds.len(),
        forall|j: int| 0 <= j < i ==> #[trigger] ds[j].level != level,
    ensures
        i < ds.len() && ds[i].level == level ==> first_with_level(ds, level) == Some(i as nat),
        i == ds.len() ==> first_with_level(ds, level) is None,
    decreases i,
{
    if i > 0 {
        lemma_first_with_level(ds.drop_first(), level, i - 1);
    }
}

/// A level that no division has first has no division at all.
pub proof fn lemma_count_without_first(ds: Seq<DivisionModel>, level: Option<u32>)
    ensures
        first_with_level(ds, level) is None ==> level_count(ds, level) == 0,
{
    if first_with_level(ds, level) is None {
        lemma_first_none(ds, level);
        lemma_count_zero(ds, level);
    }
}

proof fn lemma_first_none(ds: Seq<DivisionModel>, level: Option<u32>)
    requires
        first_with_level(ds, level) is None,
    ensures
        forall|j: int| 0 <= j < ds.len() ==> #[trigger] ds[j].level != level,
    decreases ds.len(),
{
    if ds.len() > 0 {
        lemma_first_none(ds.drop_first(), level);
        assert forall|j: int| 0 <= j < ds.len() implies #[trigger] ds[j].level != level by {
            if j > 0 {
                assert(ds[j] == ds.drop_first()[j - 1]);
            }
        }
    }
}

proof fn lemma_count_zero(ds: Seq<DivisionModel>, level: Option<u32>)
    requires
        forall|j: int| 0 <= j < ds.len() ==> #[trigger] ds[j].level != level,
    ensures
        level_count(ds, level) == 0,
    decreases ds.len(),
{
    if ds.len() > 0 {
        assert(ds.last() == ds[ds.len() - 1]);
        lemma_count_zero(ds.drop_last(), level);
    }
}

proof fn lemma_first_with_level_found(ds: Seq<DivisionModel>, level: Option<u32>)
    ensures
        first_with_level(ds, level) matches Some(i) ==> i < ds.len() && ds[i as int].level == level,
    decreases ds.len(),
{
    if ds.len() > 0 && ds[0].level != level {
        lemma_first_with_level_found(ds.drop_first(), level);
    }
}

/// The number of divisions with level `level`, and the first of them.
pub(crate) fn level_census(ds: &Vec<Division>, level: Option<u32>) -> (r: (usize, Option<usize>))
    ensures
        r.0 == level_count(division_views(ds@), level),
        r.1 matches Some(i) ==> first_with_level(division_views(ds@), level) == Some(i as nat)
            && i < ds@.len(),
        r.1 is None ==> first_with_level(division_views(ds@), level) is None,
{
    let ghost dv = division_views(ds@);
    let mut count: usize = 0;
    let mut first: Option<usize> = None;
    let mut i: usize = 0;
    while i < ds.len()
        invariant
            i <= ds@.len(),
            dv == division_views(ds@),
            count == level_count(dv.take(i as int), level),
            count <= i,
            first is None ==> forall|j: int| 0 <= j < i ==> #[trigger] dv[j].level != level,
            first matches Some(f) ==> f < i && dv[f as int].level == level && forall|j: int|
                0 <= j < f ==> #[trigger] dv[j].level != level,
        decreases ds@.len() - i,
    {
        proof {
            lemma_level_count_step(dv, i as int, level);
        }
        assert(dv[i as int] == ds@[i as int]@);
        if ds[i].level == level {
            count += 1;
            if first.is_none() {
                first = Some(i);
            }
        }
        i += 1;
    }
    assert(dv.take(i as int) =~= dv);
    proof {
        match first {
            Some(f) => lemma_first_with_level(dv, level, f as int),
            None => lemma_first_with_level(dv, level, i as int),
        }
    }
    (count, first)
}

proof fn lemma_move_target_valid(ds: Seq<DivisionModel>, division: usize, position: usize, up: bool)
    requires
        ds.len() <= usize::MAX,
        division < ds.len() ==> ds[division as int].teams.len() <= usize::MAX,
    ensures
        move_target_of(ds, division, position, up) matches Some(t) ==> club_at(ds, t) is Some
            && club_at(ds, (division, position)) is Some && (t.0 != division || t.1 != position),
{
    if division < ds.len() && position < ds[division as int].teams.len() {
        if up && position > 0 {
            assert(move_target_of(ds, division, position, up) == Some((division, (position - 1) as usize)));
        } else if !up && position + 1 < ds[division as int].teams.len() {
            assert(position + 1 <= usize::MAX);
            assert(move_target_of(ds, division, position, up) == Some((division, (position + 1) as usize)));
        } else {
            match ds[division as int].level {
                Some(level) => {
                    if level_count(ds, Some(level)) == 1 {
                        let adjacent: Option<u32> = if up {
                            if level == 0 { None } else { Some((level - 1) as u32) }
                        } else {
                            if level == u32::MAX { None } else { Some((level + 1) as u32) }
                        };
                        match adjacent {
                            Some(a) => {
                                lemma_first_with_level_found(ds, Some(a));
                                match first_with_level(ds, Some(a)) {
                                    Some(i) => {
                                        assert(ds[i as int].level == Some(a));
                                        assert(a != level);
                                        assert(i != division);
                                    },
                                    None => {},
                                }
                            },
                            None => {},
                        }
                    }
                },
                None => {},
            }
        }
    }
}

/// The divisions after the promotions or relegations of division `i`
/// changed: the division one level above takes as relegations the new
/// promotions, and the division one level below takes as promotions the new
/// relegations, so that both ends of a passage between two levels agree.
pub open spec fn linked_passages(ds: Seq<DivisionModel>, i: int, promotions_changed: bool, relegations_changed: bool) -> Seq<DivisionModel> {
    match ds[i].level {
        None => ds,
        Some(level) => {
            let above: Option<u32> = if level == 0 {
                None
            } else {
                Some((level - 1) as u32)
            };
            let below: Option<u32> = if level == u32::MAX {
                None
            } else {
                Some((level + 1) as u32)
            };
            let ds1 = if promotions_changed {
                match first_with_level(ds, above) {
                    Some(a) => ds.update(a as int, DivisionModel { relegations: ds[i].promotions, ..ds[a as int] }),
                    None => ds,
                }
            } else {
                ds
            };
            if relegations_changed {
                match first_with_level(ds1, below) {
                    Some(b) => ds1.update(b as int, DivisionModel { promotions: ds[i].relegations, ..ds1[b as int] }),
                    None => ds1,
                }
            } else {
                ds1
            }
        },
    }
}

// ---------------------------------------------------------------------------
// Laws of the edits
// ---------------------------------------------------------------------------

/// Whether two sequences of divisions have the same levels and the same
/// numbers of clubs, division by division.
pub open spec fn same_shape(a: Seq<DivisionModel>, b: Seq<DivisionModel>) -> bool {
    a.len() == b.len() && forall|i: int|
        0 <= i < a.len() ==> (#[trigger] a[i]).level == b[i].level && a[i].teams.len() == b[i].teams.len()
}

proof fn lemma_same_levels(a: Seq<DivisionModel>, b: Seq<DivisionModel>, level: Option<u32>)
    requires
        same_shape(a, b),
    ensures
        level_count(a, level) == level_count(b, level),
        first_with_level(a, level) == first_with_level(b, level),
    decreases a.len(),
{
    if a.len() > 0 {
        assert(a.last() == a[a.len() - 1]);
        assert(b.last() == b[b.len() - 1]);
        assert(same_shape(a.drop_last(), b.drop_last())) by {
            assert forall|i: int| 0 <= i < a.drop_last().len() implies (#[trigger] a.drop_last()[i]).level
                == b.drop_last()[i].level && a.drop_last()[i].teams.len() == b.drop_last()[i].teams.len() by {
                assert(a.drop_last()[i] == a[i]);
                assert(b.drop_last()[i] == b[i]);
            }
        }
        assert(same_shape(a.drop_first(), b.drop_first())) by {
            assert forall|i: int| 0 <= i < a.drop_first().len() implies (#[trigger] a.drop_first()[i]).level
                == b.drop_first()[i].level && a.drop_first()[i].teams.len() == b.drop_first()[i].teams.len() by {
                assert(a.drop_first()[i] == a[i + 1]);
                assert(b.drop_first()[i] == b[i + 1]);
            }
        }
        assert(a[0].level == b[0].level);
        lemma_same_levels(a.drop_last(), b.drop_last(), level);
        lemma_same_levels(a.drop_first(), b.drop_first(), level);
    }
}

proof fn lemma_same_shape_targets(a: Seq<DivisionModel>, b: Seq<DivisionModel>, division: usize, position: usize, up: bool)
    requires
        same_shape(a, b),
    ensures
        move_target_of(a, division, position, up) == move_target_of(b, division, position, up),
{
    if division < a.len() {
        let d = division as int;
        assert(a[d].level == b[d].level && a[d].teams.len() == b[d].teams.len());
        match a[d].level {
            Some(level) => {
                lemma_same_levels(a, b, Some(level));
                if level > 0 {
                    lemma_same_levels(a, b, Some((level - 1) as u32));
                }
                if level < u32::MAX {
                    lemma_same_levels(a, b, Some((level + 1) as u32));
                }
                let fa = first_with_level(a, Some((level - 1) as u32));
                let fb = first_with_level(a, Some((level + 1) as u32));
                lemma_first_with_level_found(a, Some((level - 1) as u32));
                lemma_first_with_level_found(a, Some((level + 1) as u32));
                if let Some(i) = fa {
                    assert(a[i as int].teams.len() == b[i as int].teams.len());
                }
                if let Some(i) = fb {
                    assert(a[i as int].teams.len() == b[i as int].teams.len());
                }
            },
            None => {},
        }
    }
}

proof fn lemma_count_positive(ds: Seq<DivisionModel>, level: Option<u32>, j: int)
    requires
        0 <= j < ds.len(),
        ds[j].level == level,
    ensures
        level_count(ds, level) >= 1,
    decreases ds.len(),
{
    if j < ds.len() - 1 {
        assert(ds.drop_last()[j] == ds[j]);
        lemma_count_positive(ds.drop_last(), level, j);
    }
}

proof fn lemma_count_two(ds: Seq<DivisionModel>, level: Option<u32>, j: int, k: int)
    requires
        0 <= j < k < ds.len(),
        ds[j].level == level,
        ds[k].level == level,
    ensures
        level_count(ds, level) >= 2,
    decreases ds.len(),
{
    assert(ds.drop_last()[j] == ds[j]);
    if k == ds.len() - 1 {
        lemma_count_positive(ds.drop_last(), level, j);
    } else {
        assert(ds.drop_last()[k] == ds[k]);
        lemma_count_two(ds.drop_last(), level, j, k);
    }
}

proof fn lemma_single_level_first(ds: Seq<DivisionModel>, level: Option<u32>, d: int)
    requires
        0 <= d < ds.len(),
        ds[d].level == level,
        level_count(ds, level) == 1,
    ensures
        first_with_level(ds, level) == Some(d as nat),
{
    assert forall|j: int| 0 <= j < d implies #[trigger] ds[j].level != level by {
        if ds[j].level == level {
            lemma_count_two(ds, level, j, d);
        }
    }
    lemma_first_with_level(ds, level, d);
}

/// Swapping two clubs changes nothing but those two places: every division
/// keeps its properties and its number of clubs, and each of the two clubs
/// is found where the other was.
pub proof fn law_swap_keeps_shape(ds: Seq<DivisionModel>, s: (usize, usize), t: (usize, usize))
    requires
        club_at(ds, s) is Some,
        club_at(ds, t) is Some,
    ensures
        same_shape(swapped(ds, s, t), ds),
        forall|i: int| 0 <= i < ds.len() ==> (#[trigger] swapped(ds, s, t)[i]).name == ds[i].name
            && swapped(ds, s, t)[i].promotions == ds[i].promotions
            && swapped(ds, s, t)[i].relegations == ds[i].relegations
            && swapped(ds, s, t)[i].reputation == ds[i].reputation,
        club_at(swapped(ds, s, t), t) == club_at(ds, s),
        club_at(swapped(ds, s, t), s) == club_at(ds, t),
        forall|p: (usize, usize)| p != s && p != t ==> #[trigger] club_at(swapped(ds, s, t), p) == club_at(ds, p),
{
    let r = swapped(ds, s, t);
    assert forall|i: int| 0 <= i < ds.len() implies (#[trigger] r[i]).level == ds[i].level && r[i].teams.len()
        == ds[i].teams.len() by {}
    assert forall|p: (usize, usize)| p != s && p != t implies #[trigger] club_at(r, p) == club_at(ds, p) by {
        if p.0 < ds.len() && p.1 < ds[p.0 as int].teams.len() {
            assert(r[p.0 as int].teams[p.1 as int] == ds[p.0 as int].teams[p.1 as int]);
        }
    }
}

/// Swapping the same two places twice gives the divisions back.
pub proof fn law_swap_twice_restores(ds: Seq<DivisionModel>, s: (usize, usize), t: (usize, usize))
    requires
        club_at(ds, s) is Some,
        club_at(ds, t) is Some,
    ensures
        swapped(swapped(ds, s, t), s, t) == ds,
{
    let r = swapped(ds, s, t);
    law_swap_keeps_shape(ds, s, t);
    let rr = swapped(r, s, t);
    law_swap_keeps_shape(r, s, t);
    assert forall|i: int| 0 <= i < ds.len() implies #[trigger] rr[i] == ds[i] by {
        assert(rr[i].teams.len() == ds[i].teams.len());
        assert forall|k: int| 0 <= k < ds[i].teams.len() implies #[trigger] rr[i].teams[k] == ds[i].teams[k] by {
            let p = (i as usize, k as usize);
            assert(club_at(rr, p) == club_at(ds, p));
        }
        assert(rr[i].teams =~= ds[i].teams);
    }
    assert(rr =~= ds);
}

/// A moved club is found at the place that the move returns: the selection
/// follows the club.
pub proof fn law_move_follows_club(ds: Seq<DivisionModel>, division: usize, position: usize, up: bool)
    requires
        ds.len() <= usize::MAX,
        division < ds.len() ==> ds[division as int].teams.len() <= usize::MAX,
        move_target_of(ds, division, position, up) is Some,
    ensures
        club_at(swapped(ds, (division, position), move_target_of(ds, division, position, up).unwrap()),
            move_target_of(ds, division, position, up).unwrap()) == club_at(ds, (division, position)),
{
    lemma_move_target_valid(ds, division, position, up);
    law_swap_keeps_shape(ds, (division, position), move_target_of(ds, division, position, up).unwrap());
}

/// The divisions of a league file, and the clubs of each, are no more than a
/// `Vec` can hold.
pub proof fn lemma_league_bounds(l: &LeagueFile)
    ensures
        l@.divisions.len() <= usize::MAX,
        forall|i: int| 0 <= i < l@.divisions.len() ==> (#[trigger] l@.divisions[i]).teams.len() <= usize::MAX,
{
    assert(l@.divisions.len() == l.divisions@.len());
    assert(l.divisions@.len() == l.divisions.len());
    assert forall|i: int| 0 <= i < l@.divisions.len() implies (#[trigger] l@.divisions[i]).teams.len() <= usize::MAX by {
        assert(l@.divisions[i] == l.divisions@[i]@);
        assert(l.divisions@[i].teams@.len() == l.divisions@[i].teams.len());
    }
}

/// A moved club of a league file is found at the place that the move
/// returns: the selection follows the club.
pub proof fn law_league_move_follows_club(l: &LeagueFile, division: usize, position: usize, up: bool)
    requires
        move_target_of(l@.divisions, division, position, up) is Some,
    ensures
        club_at(swapped(l@.divisions, (division, position), move_target_of(l@.divisions, division, position, up).unwrap()),
            move_target_of(l@.divisions, division, position, up).unwrap()) == club_at(l@.divisions, (division, position)),
{
    lemma_league_bounds(l);
    law_move_follows_club(l@.divisions, division, position, up);
}

/// A club of a league file moved one place up comes back with one move
/// down, and the other way round: the two moves undo each other.
pub proof fn law_league_move_back(l: &LeagueFile, division: usize, position: usize, up: bool)
    requires
        move_target_of(l@.divisions, division, position, up) is Some,
    ensures
        ({
            let t = move_target_of(l@.divisions, division, position, up).unwrap();
            move_target_of(swapped(l@.divisions, (division, position), t), t.0, t.1, !up) == Some((division, position))
        }),
{
    lemma_league_bounds(l);
    law_move_back(l@.divisions, division, position, up);
}

/// A club moved one place up comes back with one move down, and the other
/// way round: the two moves undo each other.
pub proof fn law_move_back(ds: Seq<DivisionModel>, division: usize, position: usize, up: bool)
    requires
        ds.len() <= usize::MAX,
        forall|i: int| 0 <= i < ds.len() ==> (#[trigger] ds[i]).teams.len() <= usize::MAX,
        move_target_of(ds, division, position, up) is Some,
    ensures
        ({
            let t = move_target_of(ds, division, position, up).unwrap();
            move_target_of(swapped(ds, (division, position), t), t.0, t.1, !up) == Some((division, position))
        }),
{
    let t = move_target_of(ds, division, position, up).unwrap();
    lemma_move_target_valid(ds, division, position, up);
    law_swap_keeps_shape(ds, (division, position), t);
    lemma_same_shape_targets(swapped(ds, (division, position), t), ds, t.0, t.1, !up);
    let d = division as int;
    let n = ds[d].teams.len();
    if up && position > 0 {
    } else if !up && position + 1 < n {
    } else {
        let level = ds[d].level.unwrap();
        let a: u32 = if up { (level - 1) as u32 } else { (level + 1) as u32 };
        lemma_first_with_level_found(ds, Some(a));
        let i = first_with_level(ds, Some(a)).unwrap();
        assert(ds[i as int].level == Some(a));
        assert(t == (i as usize, if up { (ds[i as int].teams.len() - 1) as usize } else { 0usize }));
        lemma_single_level_first(ds, Some(level), d);
        if up {
            assert(position == 0);
            assert(((a + 1) as u32) == level);
        } else {
            assert(position == n - 1);
            assert(((a - 1) as u32) == level);
        }
    }
}

impl LeagueFile {
    /// Exchanges the clubs at `source` and `target` (division, place). Returns
    /// whether it did: both places must hold a club and differ.
    pub fn swap_clubs(&mut self, source: (usize, usize), target: (usize, usize)) -> (r: bool)
        ensures
            r == (club_at(old(self)@.divisions, source) is Some && club_at(old(self)@.divisions, target) is Some
                && source != target),
            r ==> final(self)@ == (LeagueModel { divisions: swapped(old(self)@.divisions, source, target), ..old(self)@ }),
            !r ==> final(self)@ == old(self)@,
    {
        let ghost dv = division_views(self.divisions@);
        if source.0 >= self.divisions.len() || source.1 >= self.divisions[source.0].teams.len() {
            return false;
        }
        if target.0 >= self.divisions.len() || target.1 >= self.divisions[target.0].teams.len() {
            return false;
        }
        if source.0 == target.0 && source.1 == target.1 {
            return false;
        }
        assert(dv[source.0 as int] == self.divisions@[source.0 as int]@);
        assert(dv[target.0 as int] == self.divisions@[target.0 as int]@);
        let first = copy_string(&self.divisions[source.0].teams[source.1]);
        let second = copy_string(&self.divisions[target.0].teams[target.1]);
        let ghost ds1 = dv.update(source.0 as int, with_team(dv[source.0 as int], source.1 as int, second@));
        self.divisions[source.0].teams[source.1] = second;
        assert(division_views(self.divisions@) =~= ds1) by {
            assert(string_views(self.divisions@[source.0 as int].teams@) =~= dv[source.0 as int].teams.update(source.1 as int, second@));
        }
        let ghost t_old = string_views(self.divisions@[target.0 as int].teams@);
        self.divisions[target.0].teams[target.1] = first;
        assert(division_views(self.divisions@) =~= swapped(dv, source, target)) by {
            assert(string_views(self.divisions@[target.0 as int].teams@) =~= t_old.update(target.1 as int, first@));
        }
        true
    }

    /// Where the club at (`division`, `position`) would go when moved (see
    /// `move_target_of`).
    pub fn move_target(&self, division: usize, position: usize, up: bool) -> (r: Option<(usize, usize)>)
        ensures
            r == move_target_of(self@.divisions, division, position, up),
    {
        let ghost dv = self@.divisions;
        if division >= self.divisions.len() || position >= self.divisions[division].teams.len() {
            return None;
        }
        assert(dv[division as int] == self.divisions@[division as int]@);
        if up && position > 0 {
            return Some((division, position - 1));
        }
        if !up && position + 1 < self.divisions[division].teams.len() {
            return Some((division, position + 1));
        }
        let level = match self.divisions[division].level {
            Some(l) => l,
            None => {
                return None;
            },
        };
        let (count, _) = level_census(&self.divisions, Some(level));
        if count != 1 {
            return None;
        }
        let adjacent = if up {
            if level == 0 {
                return None;
            }
            level - 1
        } else {
            if level == u32::MAX {
                return None;
            }
            level + 1
        };
        let (count2, first) = level_census(&self.divisions, Some(adjacent));
        if count2 != 1 {
            return None;
        }
        match first {
            Some(i) => {
                assert(first_with_level(dv, Some(adjacent)) == Some(i as nat));
                assert(dv[i as int] == self.divisions@[i as int]@);
                let n = self.divisions[i].teams.len();
                if n == 0 {
                    None
                } else {
                    Some((i, if up { n - 1 } else { 0 }))
                }
            },
            None => None,
        }
    }

    /// Moves the club at (`division`, `position`) one place up or down (see
    /// `move_target_of`), exchanging it with the club there. Returns the
    /// club's new place.
    pub fn move_club(&mut self, division: usize, position: usize, up: bool) -> (r: Option<(usize, usize)>)
        ensures
            r == move_target_of(old(self)@.divisions, division, position, up),
            r matches Some(t) ==> final(self)@ == (LeagueModel {
                divisions: swapped(old(self)@.divisions, (division, position), t),
                ..old(self)@
            }),
            r is None ==> final(self)@ == old(self)@,
    {
        let target = match self.move_target(division, position, up) {
            Some(t) => t,
            None => {
                return None;
            },
        };
        proof {
            assert(self@.divisions.len() == self.divisions.len());
            if division < self.divisions.len() {
                assert(self@.divisions[division as int].teams.len() == self.divisions@[division as int].teams.len());
            }
            lemma_move_target_valid(self@.divisions, division, position, up);
        }
        if self.swap_clubs((division, position), target) {
            Some(target)
        } else {
            None
        }
    }

    /// Brings the divisions next to division `index` in line with its
    /// changed promotions or relegations (see `linked_passages`).
    pub fn link_passages(&mut self, index: usize, promotions_changed: bool, relegations_changed: bool)
        requires
            index < old(self)@.divisions.len(),
        ensures
            final(self)@ == (LeagueModel {
                divisions: linked_passages(old(self)@.divisions, index as int, promotions_changed, relegations_changed),
                ..old(self)@
            }),
    {
        let ghost ds0 = self@.divisions;
        assert(ds0[index as int] == self.divisions@[index as int]@);
        let level = match self.divisions[index].level {
            Some(l) => l,
            None => {
                return;
            },
        };
        let promotions = self.divisions[index].promotions;
        let relegations = self.divisions[index].relegations;
        if promotions_changed {
            let above: Option<u32> = if level == 0 {
                None
            } else {
                Some(level - 1)
            };
            let (_, first) = level_census(&self.divisions, above);
            match first {
                Some(a) => {
                    let ghost before = self@.divisions;
                    assert(before[a as int] == self.divisions@[a as int]@);
                    self.divisions[a].relegations = promotions;
                    assert(self@.divisions =~= before.update(a as int, DivisionModel { relegations: promotions, ..before[a as int] }));
                },
                None => {},
            }
        }
        let ghost ds1 = self@.divisions;
        if relegations_changed {
            let below: Option<u32> = if level == u32::MAX {
                None
            } else {
                Some(level + 1)
            };
            let (_, first) = level_census(&self.divisions, below);
            match first {
                Some(b) => {
                    assert(ds1[b as int] == self.divisions@[b as int]@);
                    self.divisions[b].promotions = relegations;
                    assert(self@.divisions =~= ds1.update(b as int, DivisionModel { promotions: relegations, ..ds1[b as int] }));
                },
                None => {},
            }
        }
    }

    /// Every place of a club with exactly the name `club`, division by
    /// division: several places mean a duplicate, and none is picked.
    pub fn club_locations(&self, club: &str) -> (r: Vec<(usize, usize)>)
        ensures
            r@ == club_places(self@.divisions, club@, self@.divisions.len()),
    {
        let ghost dv = self@.divisions;
        let name = to_chars(club);
        let mut r: Vec<(usize, usize)> = Vec::new();
        let mut d: usize = 0;
        while d < self.divisions.len()
            invariant
                d <= self.divisions@.len(),
                dv == self@.divisions,
                name@ == club@,
                r@ == club_places(dv, club@, d as nat),
            decreases self.divisions@.len() - d,
        {
            assert(dv[d as int] == self.divisions@[d as int]@);
            let ghost before = r@;
            let teams = &self.divisions[d].teams;
            let mut t: usize = 0;
            while t < teams.len()
                invariant
                    t <= teams@.len(),
                    dv[d as int].teams == string_views(teams@),
                    name@ == club@,
                    r@ == before + places_in(dv[d as int].teams, d, club@, t as nat),
                decreases teams@.len() - t,
            {
                let here = string_chars(&teams[t]);
                assert(dv[d as int].teams[t as int] == teams@[t as int]@);
                if same_chars(here.as_slice(), name.as_slice()) {
                    r.push((d, t));
                }
                t += 1;
                assert(r@ =~= before + places_in(dv[d as int].teams, d, club@, t as nat));
            }
            d += 1;
        }
        r
    }

    /// The problems of the division `index` (see `division_issues_of`).
    pub fn division_issues(&self, index: usize) -> (r: Vec<String>)
        requires
            index < self@.divisions.len(),
        ensures
            string_views(r@) == division_issues_of(self@.divisions, index as int),
    {
        let ghost dv = self@.divisions;
        let ghost d = dv[index as int];
        let division = &self.divisions[index];
        assert(d == division@);
        let mut issues: Vec<String> = Vec::new();
        let name = string_chars(&division.name);
        if blank(name.as_slice()) {
            push_warning(&mut issues, literal("Nome: inserisci il nome della divisione."));
        }
        let ghost after_name = string_views(issues@);
        assert(after_name =~= message_if(trim(d.name).len() == 0, "Nome: inserisci il nome della divisione."@));
        match division.level {
            Some(level) => {
                let mut more = self.level_issues(index, level);
                let ghost m = string_views(more@);
                let ghost before = issues@;
                issues.append(&mut more);
                assert(string_views(issues@) =~= after_name + m);
            },
            None => {},
        }
        let bad_reputation = match division.reputation {
            Some(v) => !(1 <= v && v <= 20),
            None => false,
        };
        if bad_reputation {
            push_warning(&mut issues, literal("Reputazione: usa un valore da 1 a 20."));
        }
        assert(string_views(issues@) =~= division_issues_of(dv, index as int));
        issues
    }

    fn level_issues(&self, index: usize, level: u32) -> (r: Vec<String>)
        requires
            index < self@.divisions.len(),
        ensures
            string_views(r@) == level_issues_of(self@.divisions, index as int, level),
    {
        let ghost dv = self@.divisions;
        let ghost d = dv[index as int];
        let division = &self.divisions[index];
        let mut issues: Vec<String> = Vec::new();
        if level == 0 {
            push_warning(&mut issues, literal("Livello: deve essere maggiore di zero."));
        }
        if level_elsewhere(&self.divisions, index, level) {
            push_warning(&mut issues, literal("Livello: già occupato da un'altra divisione."));
        }
        let first_bad = level == 1 && match division.promotions {
            Some(v) => v != 0,
            None => false,
        };
        if first_bad {
            push_warning(&mut issues, literal("Promozioni: la prima divisione deve avere zero promozioni."));
        }
        let ghost w3 = string_views(issues@);
        assert(w3 =~= message_if(level == 0, "Livello: deve essere maggiore di zero."@)
            + message_if(level_taken_elsewhere(dv, index as int, level), "Livello: già occupato da un'altra divisione."@)
            + message_if(
                level == 1 && (d.promotions matches Some(v) && v != 0),
                "Promozioni: la prima divisione deve avere zero promozioni."@,
            ));
        match self.above_issue(index, level) {
            Some(m) => push_warning(&mut issues, m),
            None => {},
        }
        let ghost w4 = string_views(issues@);
        assert(w4 =~= w3 + above_issue(dv, d, level));
        match self.below_issue(index, level) {
            Some(m) => push_warning(&mut issues, m),
            None => {},
        }
        assert(string_views(issues@) =~= w4 + below_issue(dv, d, level));
        issues
    }

    fn above_issue(&self, index: usize, level: u32) -> (r: Option<String>)
        requires
            index < self@.divisions.len(),
        ensures
            above_issue(self@.divisions, self@.divisions[index as int], level) == (match r {
                Some(m) => seq![m@],
                None => Seq::<Seq<char>>::empty(),
            }),
    {
        let ghost dv = self@.divisions;
        let division = &self.divisions[index];
        let above_level = if level == 0 { None } else { Some(level - 1) };
        let (_, above) = level_census(&self.divisions, above_level);
        match above {
            Some(a) => {
                assert(dv[a as int] == self.divisions@[a as int]@);
                if division.promotions != self.divisions[a].relegations {
                    let mut m = to_chars("Promozioni: devono corrispondere alle retrocessioni di ");
                    let other = string_chars(&self.divisions[a].name);
                    push_all(&mut m, other.as_slice());
                    push_str(&mut m, ".");
                    Some(from_chars(m.as_slice()))
                } else {
                    None
                }
            },
            None => None,
        }
    }

    fn below_issue(&self, index: usize, level: u32) -> (r: Option<String>)
        requires
            index < self@.divisions.len(),
        ensures
            below_issue(self@.divisions, self@.divisions[index as int], level) == (match r {
                Some(m) => seq![m@],
                None => Seq::<Seq<char>>::empty(),
            }),
    {
        let ghost dv = self@.divisions;
        let division = &self.divisions[index];
        let below_level = if level == u32::MAX { None } else { Some(level + 1) };
        let (_, below) = level_census(&self.divisions, below_level);
        match below {
            Some(b) => {
                assert(dv[b as int] == self.divisions@[b as int]@);
                if division.relegations != self.divisions[b].promotions {
                    let mut m = to_chars("Retrocessioni: devono corrispondere alle promozioni di ");
                    let other = string_chars(&self.divisions[b].name);
                    push_all(&mut m, other.as_slice());
                    push_str(&mut m, ".");
                    Some(from_chars(m.as_slice()))
                } else {
                    None
                }
            },
            None => {
                let last_bad = match division.relegations {
                    Some(v) => v != 0,
                    None => false,
                };
                if !level_above(&self.divisions, level) && last_bad {
                    Some(literal("Retrocessioni: l'ultima divisione deve avere zero retrocessioni."))
                } else {
                    None
                }
            },
        }
    }
}

/// Whether a division other than `index` has level `level`.
fn level_elsewhere(ds: &Vec<Division>, index: usize, level: u32) -> (r: bool)
    ensures
        r == level_taken_elsewhere(division_views(ds@), index as int, level),
{
    let ghost dv = division_views(ds@);
    let mut i: usize = 0;
    while i < ds.len()
        invariant
            i <= ds@.len(),
            dv == division_views(ds@),
            forall|o: int| 0 <= o < i && o != index ==> #[trigger] dv[o].level != Some(level),
        decreases ds@.len() - i,
    {
        assert(dv[i as int] == ds@[i as int]@);
        if i != index && ds[i].level == Some(level) {
            assert(dv[i as int].level == Some(level));
            return true;
        }
        i += 1;
    }
    false
}

/// Whether a division has a level above `level`.
fn level_above(ds: &Vec<Division>, level: u32) -> (r: bool)
    ensures
        r == some_level_above(division_views(ds@), level),
{
    let ghost dv = division_views(ds@);
    let mut i: usize = 0;
    while i < ds.len()
        invariant
            i <= ds@.len(),
            dv == division_views(ds@),
            forall|o: int| 0 <= o < i ==> !(#[trigger] dv[o].level matches Some(l) && l > level),
        decreases ds@.len() - i,
    {
        assert(dv[i as int] == ds@[i as int]@);
        match ds[i].level {
            Some(l) => {
                if l > level {
                    assert(dv[i as int].level matches Some(l2) && l2 > level);
                    return true;
                }
            },
            None => {},
        }
        i += 1;
    }
    false
}


// ---------------------------------------------------------------------------
// The country blocks of the international file
// ---------------------------------------------------------------------------

/// What the parser has gathered after some lines of the international file.
pub struct CountryScan {
    pub countries: Seq<CountryModel>,
    pub warnings: Seq<Seq<char>>,
    pub current: Option<nat>,
}

/// Whether the parts of `value.split('"')` are two quoted paths.
pub open spec fn two_quoted_paths(parts: Seq<Seq<char>>) -> bool {
    parts.len() == 5 && is_blank(parts[0]) && is_blank(parts[2]) && is_blank(parts[4]) && parts[1].len() > 0
        && parts[3].len() > 0
}

/// The state after the line `raw`, numbered `index` from zero.
pub open spec fn country_step(st: CountryScan, index: nat, raw: Seq<char>) -> CountryScan {
    let line = trim(raw);
    let warn = |w: Seq<char>| CountryScan { warnings: st.warnings.push(w), ..st };
    if line.len() == 0 || starts_with_any(line, seq!['#', ';']) {
        st
    } else if starts_with_any(line, seq!['*', ':']) {
        CountryScan { current: None, ..st }
    } else if starts_with(line, '!') || starts_with(line, '+') {
        let (key, value) = split_instruction(line.drop_first());
        if eq_ignore_case(key, "AdditionalCountry"@) && starts_with(line, '!') {
            match unquote(value) {
                Some(n) => if !is_blank(n) {
                    CountryScan {
                        countries: st.countries.push(
                            CountryModel { name: trim(n), name_files: seq![], reputation: None, clubs: seq![] },
                        ),
                        current: Some(st.countries.len()),
                        ..st
                    }
                } else {
                    CountryScan {
                        warnings: st.warnings.push(bare_line_warning(index, "paese internazionale non valido"@)),
                        current: None,
                        ..st
                    }
                },
                None => CountryScan {
                    warnings: st.warnings.push(bare_line_warning(index, "paese internazionale non valido"@)),
                    current: None,
                    ..st
                },
            }
        } else {
            match st.current {
                Some(ci) => {
                    let k = lower(key);
                    let c = st.countries[ci as int];
                    if k == "tempnames"@ {
                        let parts = split_on(value, '"');
                        if two_quoted_paths(parts) {
                            CountryScan {
                                countries: st.countries.update(
                                    ci as int,
                                    CountryModel { name_files: seq![parts[1], parts[3]], ..c },
                                ),
                                ..st
                            }
                        } else {
                            warn(bare_line_warning(index, "TempNames richiede due percorsi tra virgolette"@))
                        }
                    } else if k == "reputation"@ {
                        match parse_u32(value) {
                            Some(n) => CountryScan {
                                countries: st.countries.update(ci as int, CountryModel { reputation: Some(n), ..c }),
                                ..st
                            },
                            None => warn(bare_line_warning(index, "reputazione non valida"@)),
                        }
                    } else {
                        warn(line_warning(index, "istruzione paese non riconosciuta"@, line))
                    }
                },
                None => st,
            }
        }
    } else {
        match st.current {
            Some(ci) => if starts_with_any(line, seq!['$', '@', '=']) {
                warn(line_warning(index, "istruzione paese non riconosciuta"@, line))
            } else {
                let c = st.countries[ci as int];
                CountryScan {
                    countries: st.countries.update(ci as int, CountryModel { clubs: c.clubs.push(line), ..c }),
                    ..st
                }
            },
            None => st,
        }
    }
}

/// The state after the given lines.
pub open spec fn country_scan(ls: Seq<Seq<char>>) -> CountryScan
    decreases ls.len(),
{
    if ls.len() == 0 {
        CountryScan { countries: seq![], warnings: seq![], current: None }
    } else {
        country_step(country_scan(ls.drop_last()), (ls.len() - 1) as nat, ls.last())
    }
}

/// The country blocks of the international file `text` and the warnings.
pub open spec fn parsed_countries(text: Seq<char>) -> (Seq<CountryModel>, Seq<Seq<char>>) {
    let st = country_scan(lines(text));
    (st.countries, st.warnings)
}

struct CountryScanner {
    countries: Vec<InternationalCountry>,
    warnings: Vec<String>,
    current: Option<usize>,
}

impl View for CountryScanner {
    type V = CountryScan;

    closed spec fn view(&self) -> CountryScan {
        CountryScan {
            countries: country_views(self.countries@),
            warnings: string_views(self.warnings@),
            current: match self.current {
                Some(d) => Some(d as nat),
                None => None,
            },
        }
    }
}

impl CountryScanner {
    spec fn wf(&self) -> bool {
        self.current matches Some(d) ==> d < self.countries@.len()
    }

    fn warn(&mut self, w: String)
        ensures
            final(self)@ == (CountryScan { warnings: old(self)@.warnings.push(w@), ..old(self)@ }),
    {
        push_warning(&mut self.warnings, w);
    }

    fn step(&mut self, index: usize, raw: &[char])
        requires
            old(self).wf(),
            index < usize::MAX,
        ensures
            final(self).wf(),
            final(self)@ == country_step(old(self)@, index as nat, raw@),
    {
        let line = trimmed(raw);
        assert(seq!['#', ';'] =~= ['#', ';']@);
        assert(seq!['*', ':'] =~= ['*', ':']@);
        assert(seq!['$', '@', '='] =~= ['$', '@', '=']@);
        if line.len() == 0 || first_in(line.as_slice(), &['#', ';']) {
            return;
        }
        if first_in(line.as_slice(), &['*', ':']) {
            self.current = None;
            return;
        }
        if line[0] == '!' || line[0] == '+' {
            let rest = sub_chars(line.as_slice(), 1, line.len());
            assert(rest@ =~= line@.drop_first());
            let (key, value) = instruction_parts(rest.as_slice());
            let additional = to_chars("AdditionalCountry");
            if same_ignoring_case(key.as_slice(), additional.as_slice()) && line[0] == '!' {
                let name = match unquoted(value.as_slice()) {
                    Some(n) => if !blank(n.as_slice()) {
                        Some(n)
                    } else {
                        None
                    },
                    None => None,
                };
                match name {
                    Some(n) => {
                        let clean = trimmed(n.as_slice());
                        let c = InternationalCountry {
                            name: from_chars(clean.as_slice()),
                            name_files: Vec::new(),
                            reputation: None,
                            clubs: Vec::new(),
                        };
                        assert(string_views(c.name_files@) =~= seq![]);
                        assert(string_views(c.clubs@) =~= seq![]);
                        let ghost before = country_views(self.countries@);
                        self.countries.push(c);
                        assert(country_views(self.countries@) =~= before.push(c@));
                        self.current = Some(self.countries.len() - 1);
                    },
                    None => {
                        self.warn(make_bare_line_warning(index, "paese internazionale non valido"));
                        self.current = None;
                    },
                }
                return;
            }
            match self.current {
                Some(ci) => {
                    let k = lowered(key.as_slice());
                    let ghost before = country_views(self.countries@);
                    let ghost c = before[ci as int];
                    assert(c == self.countries@[ci as int]@);
                    if chars_are(k.as_slice(), "tempnames") {
                        let parts = split_char(value.as_slice(), '"');
                        let ok = parts.len() == 5 && blank(parts[0].as_slice()) && blank(parts[2].as_slice())
                            && blank(parts[4].as_slice()) && parts[1].len() > 0 && parts[3].len() > 0;
                        proof {
                            if parts.len() == 5 {
                                assert(parts@[0]@ == char_views(parts@)[0]);
                                assert(parts@[1]@ == char_views(parts@)[1]);
                                assert(parts@[2]@ == char_views(parts@)[2]);
                                assert(parts@[3]@ == char_views(parts@)[3]);
                                assert(parts@[4]@ == char_views(parts@)[4]);
                            }
                        }
                        if ok {
                            let mut files: Vec<String> = Vec::new();
                            files.push(from_chars(parts[1].as_slice()));
                            files.push(from_chars(parts[3].as_slice()));
                            assert(string_views(files@) =~= seq![parts@[1]@, parts@[3]@]);
                            self.countries[ci].name_files = files;
                            assert(country_views(self.countries@) =~= before.update(
                                ci as int,
                                CountryModel { name_files: seq![parts@[1]@, parts@[3]@], ..c },
                            ));
                        } else {
                            self.warn(make_bare_line_warning(index, "TempNames richiede due percorsi tra virgolette"));
                        }
                    } else if chars_are(k.as_slice(), "reputation") {
                        match parse_number(value.as_slice()) {
                            Some(n) => {
                                self.countries[ci].reputation = Some(n);
                                assert(country_views(self.countries@) =~= before.update(
                                    ci as int,
                                    CountryModel { reputation: Some(n), ..c },
                                ));
                            },
                            None => {
                                self.warn(make_bare_line_warning(index, "reputazione non valida"));
                            },
                        }
                    } else {
                        self.warn(make_line_warning(index, "istruzione paese non riconosciuta", line.as_slice()));
                    }
                },
                None => {},
            }
            return;
        }
        match self.current {
            Some(ci) => {
                if first_in(line.as_slice(), &['$', '@', '=']) {
                    self.warn(make_line_warning(index, "istruzione paese non riconosciuta", line.as_slice()));
                } else {
                    let ghost before = country_views(self.countries@);
                    let ghost c = before[ci as int];
                    assert(c == self.countries@[ci as int]@);
                    let club = from_chars(line.as_slice());
                    let ghost old_clubs = string_views(self.countries@[ci as int].clubs@);
                    self.countries[ci].clubs.push(club);
                    assert(string_views(self.countries@[ci as int].clubs@) =~= old_clubs.push(club@));
                    assert(country_views(self.countries@) =~= before.update(
                        ci as int,
                        CountryModel { clubs: c.clubs.push(line@), ..c },
                    ));
                }
            },
            None => {},
        }
    }
}

/// Reads only the country blocks of the international file; the cup
/// instructions stay apart. Returns the countries and the warnings.
pub fn parse_international_countries(text: &str) -> (r: (Vec<InternationalCountry>, Vec<String>))
    ensures
        (country_views(r.0@), string_views(r.1@)) == parsed_countries(text@),
{
    let chars = to_chars(text);
    let ls = split_lines(chars.as_slice());
    let mut scanner = CountryScanner { countries: Vec::new(), warnings: Vec::new(), current: None };
    assert(country_views(scanner.countries@) =~= seq![]);
    assert(string_views(scanner.warnings@) =~= seq![]);
    let mut i: usize = 0;
    while i < ls.len()
        invariant
            i <= ls@.len(),
            char_views(ls@) == lines(text@),
            scanner.wf(),
            scanner@ == country_scan(char_views(ls@).take(i as int)),
        decreases ls@.len() - i,
    {
        scanner.step(i, ls[i].as_slice());
        proof {
            let all = char_views(ls@);
            assert(all.take(i + 1).drop_last() =~= all.take(i as int));
            assert(all.take(i + 1).last() == ls@[i as int]@);
        }
        i += 1;
    }
    assert(char_views(ls@).take(i as int) =~= lines(text@));
    (scanner.countries, scanner.warnings)
}


// ---------------------------------------------------------------------------
// The world: every league file and the international file
// ---------------------------------------------------------------------------

/// Whether the texts come in strictly increasing order.
pub open spec fn texts_sorted(s: Seq<Seq<char>>) -> bool {
    forall|a: int, b: int| 0 <= a < b < s.len() ==> text_lt(#[trigger] s[a], #[trigger] s[b])
}

proof fn lemma_insert_text_sorted(s: Seq<Seq<char>>, x: Seq<char>, j: int)
    requires
        texts_sorted(s),
        0 <= j <= s.len(),
        forall|a: int| 0 <= a < j ==> text_lt(#[trigger] s[a], x),
        j < s.len() ==> !text_lt(s[j], x) && s[j] != x,
    ensures
        texts_sorted(s.take(j) + seq![x] + s.skip(j)),
        (s.take(j) + seq![x] + s.skip(j)).no_duplicates(),
{
    let r = s.take(j) + seq![x] + s.skip(j);
    if j < s.len() {
        lemma_text_lt_total(s[j], x);
    }
    assert forall|a: int, b: int| 0 <= a < b < r.len() implies text_lt(#[trigger] r[a], #[trigger] r[b]) by {
        if b < j {
            assert(r[a] == s[a] && r[b] == s[b]);
        } else if b == j {
            assert(r[a] == s[a]);
        } else {
            assert(r[b] == s[b - 1]);
            if a < j {
                assert(r[a] == s[a]);
            } else if a == j {
                if b - 1 > j {
                    lemma_text_lt_trans(x, s[j], s[b - 1]);
                }
            } else {
                assert(r[a] == s[a - 1]);
            }
        }
    }
    assert forall|a: int, b: int| 0 <= a < b < r.len() implies r[a] != r[b] by {
        lemma_text_lt_total(r[a], r[b]);
    }
}

/// A set of club names without repetition, kept in the order of `String`.
#[derive(Debug)]
pub struct ClubSet {
    items: Vec<String>,
}

impl Clone for ClubSet {
    fn clone(&self) -> (r: ClubSet)
        ensures
            r.view() == self.view(),
    {
        proof {
            use_type_invariant(self);
        }
        ClubSet { items: copy_strings(&self.items) }
    }
}

impl ClubSet {
    #[verifier::type_invariant]
    closed spec fn no_repeats(self) -> bool {
        &&& string_views(self.items@).no_duplicates()
        &&& texts_sorted(string_views(self.items@))
    }

    /// The names in the set.
    pub closed spec fn view(&self) -> Set<Seq<char>> {
        string_views(self.items@).to_set()
    }

    /// The names in the order in which `names` gives them: the order of
    /// `String`.
    pub closed spec fn ordered(&self) -> Seq<Seq<char>> {
        string_views(self.items@)
    }

    /// An empty set.
    pub fn new() -> (r: ClubSet)
        ensures
            r.view() == Set::<Seq<char>>::empty(),
            r.ordered() == Seq::<Seq<char>>::empty(),
    {
        let r = ClubSet { items: Vec::new() };
        assert(string_views(r.items@) =~= seq![]);
        assert(string_views(r.items@).to_set() =~= Set::<Seq<char>>::empty());
        r
    }

    /// The position of `name` among the items.
    fn position(&self, name: &[char]) -> (r: Option<usize>)
        ensures
            r matches Some(i) ==> i < self.items@.len() && self.items@[i as int]@ == name@,
            r is None ==> !self.view().contains(name@),
    {
        let mut i: usize = 0;
        while i < self.items.len()
            invariant
                i <= self.items@.len(),
                forall|j: int| 0 <= j < i ==> #[trigger] string_views(self.items@)[j] != name@,
            decreases self.items@.len() - i,
        {
            let here = string_chars(&self.items[i]);
            assert(string_views(self.items@)[i as int] == self.items@[i as int]@);
            if same_chars(here.as_slice(), name) {
                return Some(i);
            }
            i += 1;
        }
        proof {
            if string_views(self.items@).to_set().contains(name@) {
                let j = string_views(self.items@).index_of(name@);
                assert(string_views(self.items@)[j] == name@);
            }
        }
        None
    }

    /// Whether `name` is in the set.
    pub fn contains(&self, name: &str) -> (r: bool)
        ensures
            r == self.view().contains(name@),
    {
        let v = to_chars(name);
        match self.position(v.as_slice()) {
            Some(i) => {
                assert(string_views(self.items@)[i as int] == name@);
                assert(string_views(self.items@).contains(name@));
                true
            },
            None => false,
        }
    }

    /// Adds `name`.
    pub fn insert(&mut self, name: String)
        ensures
            final(self).view() == old(self).view().insert(name@),
    {
        proof {
            use_type_invariant(&*self);
        }
        let v = string_chars(&name);
        match self.position(v.as_slice()) {
            Some(i) => {
                assert(string_views(self.items@)[i as int] == name@);
                assert(self.view().insert(name@) =~= self.view());
            },
            None => {
                let ghost before = string_views(self.items@);
                let mut j: usize = 0;
                while j < self.items.len() && text_less(string_chars(&self.items[j]).as_slice(), v.as_slice())
                    invariant
                        j <= self.items@.len(),
                        before == string_views(self.items@),
                        v@ == name@,
                        forall|a: int| 0 <= a < j ==> text_lt(#[trigger] before[a], name@),
                    decreases self.items@.len() - j,
                {
                    assert(before[j as int] == self.items@[j as int]@);
                    j += 1;
                }
                proof {
                    if j < before.len() {
                        assert(before[j as int] == self.items@[j as int]@);
                        assert(before.contains(before[j as int]));
                    }
                    lemma_insert_text_sorted(before, name@, j as int);
                }
                let mut items: Vec<String> = Vec::new();
                std::mem::swap(&mut items, &mut self.items);
                items.insert(j, name);
                let ghost after = string_views(items@);
                assert(after =~= before.take(j as int) + seq![name@] + before.skip(j as int));
                self.items = items;
                proof {
                    assert forall|x: Seq<char>| after.contains(x) <==> (before.contains(x) || x == name@) by {
                        if after.contains(x) {
                            let k = choose|k: int| 0 <= k < after.len() && after[k] == x;
                            if k < j {
                                assert(before[k] == x);
                            } else if k > j {
                                assert(before[k - 1] == x);
                            }
                        }
                        if before.contains(x) {
                            let k = choose|k: int| 0 <= k < before.len() && before[k] == x;
                            if k < j {
                                assert(after[k] == x);
                            } else {
                                assert(after[k + 1] == x);
                            }
                        }
                        if x == name@ {
                            assert(after[j as int] == x);
                        }
                    }
                    assert(after.to_set() =~= before.to_set().insert(name@));
                }
            },
        }
    }

    /// Takes `name` out.
    pub fn remove(&mut self, name: &str)
        ensures
            final(self).view() == old(self).view().remove(name@),
    {
        proof {
            use_type_invariant(&*self);
        }
        let v = to_chars(name);
        match self.position(v.as_slice()) {
            Some(i) => {
                let ghost before = string_views(self.items@);
                let mut items: Vec<String> = Vec::new();
                std::mem::swap(&mut items, &mut self.items);
                items.remove(i);
                assert(string_views(items@) =~= before.remove(i as int));
                proof {
                    assert forall|a: int, b: int|
                        0 <= a < b < string_views(items@).len() implies string_views(items@)[a]
                            != string_views(items@)[b] by {
                        let a2 = if a < i { a } else { a + 1 };
                        let b2 = if b < i { b } else { b + 1 };
                        assert(string_views(items@)[a] == before[a2]);
                        assert(string_views(items@)[b] == before[b2]);
                    }
                    assert forall|a: int, b: int|
                        0 <= a < b < string_views(items@).len() implies text_lt(
                            #[trigger] string_views(items@)[a],
                            #[trigger] string_views(items@)[b],
                        ) by {
                        let a2 = if a < i { a } else { a + 1 };
                        let b2 = if b < i { b } else { b + 1 };
                        assert(string_views(items@)[a] == before[a2]);
                        assert(string_views(items@)[b] == before[b2]);
                    }
                }
                self.items = items;
                proof {
                    let after = string_views(self.items@);
                    assert(before[i as int] == name@);
                    assert forall|x: Seq<char>| after.contains(x) <==> (before.contains(x) && x != name@) by {
                        if after.contains(x) {
                            let j = choose|j: int| 0 <= j < after.len() && after[j] == x;
                            let j2 = if j < i { j } else { j + 1 };
                            assert(before[j2] == x);
                            assert(j2 != i);
                        }
                        if before.contains(x) && x != name@ {
                            let j = choose|j: int| 0 <= j < before.len() && before[j] == x;
                            assert(j != i);
                            if j < i {
                                assert(after[j] == x);
                            } else {
                                assert(after[j - 1] == x);
                            }
                        }
                    }
                    assert(after.to_set() =~= before.to_set().remove(name@));
                }
            },
            None => {
                assert(self.view().remove(name@) =~= self.view());
            },
        }
    }

    /// Whether the set is empty.
    pub fn is_empty(&self) -> (r: bool)
        ensures
            r == (self.view() == Set::<Seq<char>>::empty()),
    {
        proof {
            if self.items@.len() > 0 {
                assert(string_views(self.items@).to_set().contains(string_views(self.items@)[0]));
            } else {
                assert(string_views(self.items@).to_set() =~= Set::<Seq<char>>::empty());
            }
        }
        self.items.len() == 0
    }

    /// Empties the set.
    pub fn clear(&mut self)
        ensures
            final(self).view() == Set::<Seq<char>>::empty(),
    {
        self.items = Vec::new();
        assert(string_views(self.items@) =~= seq![]);
        assert(string_views(self.items@).to_set() =~= Set::<Seq<char>>::empty());
    }

    /// The names, each once, in the order of `String`.
    pub fn names(&self) -> (r: &Vec<String>)
        ensures
            string_views(r@).to_set() == self.view(),
            string_views(r@).no_duplicates(),
            string_views(r@) == self.ordered(),
            texts_sorted(self.ordered()),
    {
        proof {
            use_type_invariant(self);
        }
        &self.items
    }
}

/// A world as opened: the league files of its League folder and the country
/// blocks of its international file, with the clubs released by removals.
#[derive(Debug, Clone)]
pub struct World {
    pub international_bytes: Vec<u8>,
    pub retained_clubs: ClubSet,
    pub deleted_clubs: ClubSet,
    pub country_names: CountryNames,
    pub league_directory: String,
    pub leagues: Vec<LeagueFile>,
    pub international_file: Option<String>,
    pub international_countries: Vec<InternationalCountry>,
    pub warnings: Vec<String>,
}

/// The models of a sequence of league files.
pub open spec fn league_views(v: Seq<LeagueFile>) -> Seq<LeagueModel> {
    v.map_values(|l: LeagueFile| l@)
}

/// What a world holds, as plain values.
pub struct WorldModel {
    pub international_bytes: Seq<u8>,
    pub retained_clubs: Set<Seq<char>>,
    pub deleted_clubs: Set<Seq<char>>,
    pub league_directory: Seq<char>,
    pub leagues: Seq<LeagueModel>,
    pub international_file: Option<Seq<char>>,
    pub international_countries: Seq<CountryModel>,
    pub warnings: Seq<Seq<char>>,
}

impl View for World {
    type V = WorldModel;

    open spec fn view(&self) -> WorldModel {
        WorldModel {
            international_bytes: self.international_bytes@,
            retained_clubs: self.retained_clubs.view(),
            deleted_clubs: self.deleted_clubs.view(),
            league_directory: self.league_directory@,
            leagues: league_views(self.leagues@),
            international_file: match self.international_file {
                Some(p) => Some(p@),
                None => None,
            },
            international_countries: country_views(self.international_countries@),
            warnings: string_views(self.warnings@),
        }
    }
}

} // verus!
