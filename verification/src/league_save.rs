//! Writing a league file back: the original lines stay as they are, and only
//! changed values, club names at roster positions, clubs appended to a
//! division and new divisions are written.
use vstd::prelude::*;
use vstd::utf8::{decode_utf8, valid_utf8};
use crate::encoding::{decode_text, decoded_text, has_bom, law_utf8_reads_back, lemma_bom_decodes, utf8_bom, utf8_bytes_like, utf8_like, utf8_text, windows_1252_encode, windows_1252_encoded};
use crate::world_edit::{file_name_check, levels_form_range, levels_one_to, outcome, starts_like_instruction, validate_filename};
use crate::leagues::{Division, DivisionModel, LeagueFile, LeagueModel, division_issues_of, division_views, message_if, league_scan, literal, parse_league, parsed_league};
use crate::text::{blank, bodies, body_len, char_is_ws, char_views, contains_char, copy_chars, decimal, eq_ignore_case, find_ws, first_in, first_is, from_chars, is_blank, is_ws, leading_ws, leading_ws_len, lemma_find_ws_at, line_body, line_ending, pieces, push_all, push_decimal, push_str, same_chars, same_ignoring_case, same_string, split_pieces, starts_with, starts_with_any, string_chars, string_views, sub_chars, to_chars, trailing_ws, trim, trim_start, trimmed, trimmed_end_len};

verus! {

// ---------------------------------------------------------------------------
// What the rendered file is
// ---------------------------------------------------------------------------

/// The four numeric properties of a division, with their instruction keys.
pub open spec fn property_list(d: DivisionModel) -> Seq<(Seq<char>, Option<u32>)> {
    seq![
        ("division"@, d.level),
        ("promotions"@, d.promotions),
        ("relegations"@, d.relegations),
        ("reputation"@, d.reputation),
    ]
}

/// The first place of the division that comes from division `si` of the
/// original text.
pub open spec fn position_of_source(sources: Seq<Option<usize>>, si: nat) -> Option<nat>
    decreases sources.len(),
{
    if sources.len() == 0 {
        None
    } else if sources[0] matches Some(x) && x as nat == si {
        Some(0)
    } else {
        match position_of_source(sources.drop_first(), si) {
            Some(i) => Some(i + 1),
            None => None,
        }
    }
}

/// Each text of `ts` followed by `nl`.
pub open spec fn lines_of(ts: Seq<Seq<char>>, nl: Seq<char>) -> Seq<char>
    decreases ts.len(),
{
    if ts.len() == 0 {
        seq![]
    } else {
        lines_of(ts.drop_last(), nl) + ts.last() + nl
    }
}

/// The clubs of `ts` after the first `n`.
pub open spec fn teams_after(ts: Seq<Seq<char>>, n: nat) -> Seq<Seq<char>> {
    if n >= ts.len() {
        seq![]
    } else {
        ts.skip(n as int)
    }
}

/// The clubs appended to the division that comes from division `si` of the
/// original text, one per line.
pub open spec fn appended_text(l: LeagueModel, o: LeagueModel, si: nat, nl: Seq<char>) -> Result<Seq<char>, Seq<char>> {
    match position_of_source(l.division_sources, si) {
        None => Err("Mappa delle divisioni non valida."@),
        Some(i) => if si >= o.divisions.len() {
            Err("Divisione originale non trovata."@)
        } else {
            Ok(lines_of(teams_after(l.divisions[i as int].teams, o.divisions[si as int].teams.len()), nl))
        },
    }
}

/// The instruction `+ key value`.
pub open spec fn property_line(key: Seq<char>, v: u32) -> Seq<char> {
    "+ "@ + key + " "@ + decimal(v as nat)
}

/// The property lines to add to a division header: those of the
/// properties, among the first `n`, that the original division lacked.
pub open spec fn added_properties(changed: DivisionModel, previous: DivisionModel, nl: Seq<char>, n: nat) -> Seq<char>
    decreases n,
{
    if n == 0 {
        seq![]
    } else {
        let before = added_properties(changed, previous, nl, (n - 1) as nat);
        let (key, value) = property_list(changed)[n - 1];
        if property_list(previous)[n - 1].1 is None && value is Some {
            before + property_line(key, value->0) + nl
        } else {
            before
        }
    }
}

/// The new text of a property line with key `key`, among the first `n`
/// properties: a changed value is written, a removed one cannot be.
pub open spec fn property_replacement(changed: DivisionModel, previous: DivisionModel, key: Seq<char>, n: nat) -> Result<Option<Seq<char>>, Seq<char>>
    decreases n,
{
    if n == 0 {
        Ok(None)
    } else {
        match property_replacement(changed, previous, key, (n - 1) as nat) {
            Err(e) => Err(e),
            Ok(rep) => {
                let (field, value) = property_list(changed)[n - 1];
                let old = property_list(previous)[n - 1].1;
                if eq_ignore_case(key, field) && value != old {
                    match value {
                        None => Err("Rimozione del parametro "@ + field + " non supportata."@),
                        Some(v) => Ok(Some("+ "@ + key + " "@ + decimal(v as nat))),
                    }
                } else {
                    Ok(rep)
                }
            },
        }
    }
}

/// The first word of `s` (`split_whitespace().next()`, or empty).
pub open spec fn first_word(s: Seq<char>) -> Seq<char> {
    let t = trim_start(s);
    match find_ws(t) {
        Some(i) => t.take(i as int),
        None => t,
    }
}

/// The output after one line: the pending text, then either the line as it
/// was or its replacement between the line's own surrounding whitespace and
/// ending, then the added property lines.
pub open spec fn emit(out: Seq<char>, prefix: Seq<char>, raw: Seq<char>, rep: Option<Seq<char>>, additions: Seq<char>, nl: Seq<char>) -> Seq<char> {
    let body = line_body(raw);
    let ending = line_ending(raw);
    let o1 = out + prefix;
    let o2 = match rep {
        Some(r) => o1 + leading_ws(body) + r + trailing_ws(body) + ending,
        None => o1 + raw,
    };
    if additions.len() > 0 {
        if ending.len() == 0 {
            o2 + nl + additions
        } else {
            o2 + additions
        }
    } else {
        o2
    }
}

/// Where the writer is in the original text.
pub struct RenderState {
    pub output: Seq<char>,
    pub division: Option<nat>,
    pub next_division: nat,
    pub team_index: nat,
}

/// The characters that end the roster lines of a division.
pub open spec fn not_roster_chars() -> Seq<char> {
    seq!['!', '#', ';', '$', '@', '=']
}

/// The writer's state after the original line `raw` (a piece with its ending).
pub open spec fn render_step(l: LeagueModel, o: LeagueModel, nl: Seq<char>, st: RenderState, raw: Seq<char>) -> Result<RenderState, Seq<char>> {
    let body = line_body(raw);
    let tr = trim(body);
    let opens = starts_with(tr, ':') || starts_with(tr, '*');
    let prefix_r: Result<Seq<char>, Seq<char>> = if opens && st.division is Some {
        appended_text(l, o, st.division->0, nl)
    } else {
        Ok(seq![])
    };
    match prefix_r {
        Err(e) => Err(e),
        Ok(prefix) => if starts_with(tr, ':') {
            let si = st.next_division;
            let st1 = RenderState { division: Some(si), next_division: si + 1, ..st };
            match position_of_source(l.division_sources, si) {
                None => Ok(st1),
                Some(idx) => {
                    let changed = l.divisions[idx as int];
                    let previous = o.divisions[si as int];
                    let rep = if changed.name != previous.name {
                        Some(": "@ + changed.name)
                    } else {
                        None
                    };
                    let additions = added_properties(changed, previous, nl, 4);
                    Ok(RenderState { output: emit(st.output, prefix, raw, rep, additions, nl), team_index: 0, ..st1 })
                },
            }
        } else if starts_with(tr, '*') {
            Ok(RenderState { output: emit(st.output, prefix, raw, None, seq![], nl), division: None, ..st })
        } else {
            match st.division {
                Some(si) => match position_of_source(l.division_sources, si) {
                    None => Ok(st),
                    Some(idx) => if starts_with(tr, '+') {
                        match property_replacement(l.divisions[idx as int], o.divisions[si as int], first_word(tr.drop_first()), 4) {
                            Err(e) => Err(e),
                            Ok(rep) => Ok(RenderState { output: emit(st.output, prefix, raw, rep, seq![], nl), ..st }),
                        }
                    } else if tr.len() > 0 && !starts_with_any(tr, not_roster_chars()) {
                        let teams = l.divisions[idx as int].teams;
                        if st.team_index >= teams.len() {
                            Err("Impossibile associare una riga della rosa."@)
                        } else {
                            let team = teams[st.team_index as int];
                            let rep = if team != tr {
                                Some(team)
                            } else {
                                None
                            };
                            Ok(RenderState {
                                output: emit(st.output, prefix, raw, rep, seq![], nl),
                                team_index: st.team_index + 1,
                                ..st
                            })
                        }
                    } else {
                        Ok(RenderState { output: emit(st.output, prefix, raw, None, seq![], nl), ..st })
                    },
                },
                None => Ok(RenderState { output: emit(st.output, prefix, raw, None, seq![], nl), ..st }),
            }
        },
    }
}

/// The writer's state after the given original lines.
pub open spec fn render_fold(l: LeagueModel, o: LeagueModel, nl: Seq<char>, start: Seq<char>, ps: Seq<Seq<char>>) -> Result<RenderState, Seq<char>>
    decreases ps.len(),
{
    if ps.len() == 0 {
        Ok(RenderState { output: start, division: None, next_division: 0, team_index: 0 })
    } else {
        match render_fold(l, o, nl, start, ps.drop_last()) {
            Err(e) => Err(e),
            Ok(st) => render_step(l, o, nl, st, ps.last()),
        }
    }
}

/// `out`, then a line ending when it does not end one, then `more`.
pub open spec fn on_new_line(out: Seq<char>, nl: Seq<char>, more: Seq<char>) -> Seq<char> {
    if out.len() > 0 && out.last() != '\n' {
        out + nl + more
    } else {
        out + more
    }
}

/// The output once the original lines are written: the clubs appended to
/// the division that the text ends with.
pub open spec fn finish_original(l: LeagueModel, o: LeagueModel, nl: Seq<char>, st: RenderState) -> Result<Seq<char>, Seq<char>> {
    match st.division {
        None => Ok(st.output),
        Some(si) => match appended_text(l, o, si, nl) {
            Err(e) => Err(e),
            Ok(a) => if a.len() > 0 {
                Ok(on_new_line(st.output, nl, a))
            } else {
                Ok(st.output)
            },
        },
    }
}

/// The lines of the properties that a new division has.
pub open spec fn present_properties(d: DivisionModel, nl: Seq<char>, n: nat) -> Seq<char>
    decreases n,
{
    if n == 0 {
        seq![]
    } else {
        let before = present_properties(d, nl, (n - 1) as nat);
        let (key, value) = property_list(d)[n - 1];
        match value {
            Some(v) => before + property_line(key, v) + nl,
            None => before,
        }
    }
}

/// The text of a new division: its header, its properties, its clubs.
pub open spec fn new_division_text(d: DivisionModel, nl: Seq<char>) -> Seq<char> {
    ": "@ + d.name + nl + present_properties(d, nl, 4) + lines_of(d.teams, nl)
}

/// The output after the new divisions among the first `n`.
pub open spec fn with_new_divisions(out: Seq<char>, l: LeagueModel, nl: Seq<char>, n: nat) -> Seq<char>
    decreases n,
{
    if n == 0 {
        out
    } else {
        let before = with_new_divisions(out, l, nl, (n - 1) as nat);
        if l.division_sources[n - 1] is None {
            on_new_line(before, nl, new_division_text(l.divisions[n - 1], nl))
        } else {
            before
        }
    }
}

/// Whether a path cannot stand between double quotes on one line.
pub open spec fn breaks_quotes(p: Seq<char>) -> bool {
    p.contains('"') || p.contains('\r') || p.contains('\n')
}

/// The header of a league that has no file yet.
pub open spec fn header_text(l: LeagueModel, nl: Seq<char>) -> Result<Seq<char>, Seq<char>> {
    if l.source_bytes.len() == 0 {
        match file_name_check(l.country) {
            Err(e) => Err(e),
            Ok(()) => if l.name_files.len() != 2 || breaks_quotes(l.name_files[0]) || breaks_quotes(l.name_files[1]) {
                Err("Servono due percorsi validi per gli archivi dei nomi."@)
            } else {
                Ok("! Country \""@ + l.country + "\""@ + nl + "! Names \""@ + l.name_files[0] + "\" \""@
                    + l.name_files[1] + "\""@ + nl)
            },
        }
    } else {
        Ok(seq![])
    }
}

/// Messages joined by a line feed.
pub open spec fn joined(ms: Seq<Seq<char>>) -> Seq<char>
    decreases ms.len(),
{
    if ms.len() == 0 {
        seq![]
    } else if ms.len() == 1 {
        ms[0]
    } else {
        joined(ms.drop_last()) + "\n"@ + ms.last()
    }
}

/// Whether the club `x` stands at an earlier place than club `t` of
/// division `i`: in an earlier division or earlier in the same one.
pub open spec fn seen_before(ds: Seq<DivisionModel>, i: int, t: int, x: Seq<char>) -> bool {
    (exists|d: int, u: int| 0 <= d < i && 0 <= u < ds[d].teams.len() && #[trigger] ds[d].teams[u] == x)
        || (exists|u: int| 0 <= u < t && #[trigger] ds[i].teams[u] == x)
}

/// The check of the first `n` clubs of division `i`.
pub open spec fn team_checks(ds: Seq<DivisionModel>, i: int, n: nat) -> Result<(), Seq<char>>
    decreases n,
{
    if n == 0 {
        Ok(())
    } else {
        match team_checks(ds, i, (n - 1) as nat) {
            Err(e) => Err(e),
            Ok(()) => {
                let team = ds[i].teams[n - 1];
                if is_blank(team) || team.contains('\r') || team.contains('\n') || starts_like_instruction(team) {
                    Err("Nome club non valido: "@ + team)
                } else if seen_before(ds, i, n - 1, team) {
                    Err("Club duplicato: "@ + team)
                } else {
                    Ok(())
                }
            },
        }
    }
}

/// A property's value, or 0.
pub open spec fn or_zero(v: Option<u32>) -> nat {
    match v {
        Some(x) => x as nat,
        None => 0,
    }
}

/// The check of division `i` before writing.
pub open spec fn division_save_check(l: LeagueModel, o: LeagueModel, i: int) -> Result<(), Seq<char>> {
    let ds = l.divisions;
    let d = ds[i];
    let issues = division_issues_of(ds, i);
    if issues.len() > 0 {
        Err(joined(issues))
    } else if !(3 <= d.teams.len() <= 24) {
        Err(d.name + ": servono da 3 a 24 squadre."@)
    } else if d.level is None || d.level->0 > 12 {
        Err(d.name + ": il livello deve essere compreso tra 1 e 12."@)
    } else if d.name.contains('\r') || d.name.contains('\n') || trim(d.name) != d.name {
        Err("Il nome divisione non può contenere ritorni a capo o spazi iniziali/finali."@)
    } else if or_zero(d.promotions) + or_zero(d.relegations) > d.teams.len() {
        Err(d.name + ": promozioni e retrocessioni superano il numero di squadre."@)
    } else if l.division_sources[i] matches Some(s) && (s >= o.divisions.len() || d.teams.len()
        < o.divisions[s as int].teams.len()) {
        Err("La rimozione di squadre non è ancora supportata nel salvataggio."@)
    } else {
        team_checks(ds, i, d.teams.len())
    }
}

/// The checks of the first `n` divisions.
pub open spec fn divisions_save_check(l: LeagueModel, o: LeagueModel, n: nat) -> Result<(), Seq<char>>
    decreases n,
{
    if n == 0 {
        Ok(())
    } else {
        match divisions_save_check(l, o, (n - 1) as nat) {
            Err(e) => Err(e),
            Ok(()) => division_save_check(l, o, n - 1),
        }
    }
}

/// The checks of a league before writing: from 1 to 12 divisions, one
/// source entry per division, levels `1..n`, then each division.
pub open spec fn save_check(l: LeagueModel, o: LeagueModel) -> Result<(), Seq<char>> {
    let ds = l.divisions;
    if ds.len() == 0 || ds.len() > 12 {
        Err("Una lega deve contenere da 1 a 12 divisioni."@)
    } else if l.division_sources.len() != ds.len() {
        Err("Mappa delle divisioni non valida."@)
    } else if !levels_one_to(ds, ds.len()) {
        Err("I livelli devono essere consecutivi da 1, senza buchi."@)
    } else {
        divisions_save_check(l, o, ds.len())
    }
}

/// Whether `s` holds a carriage return followed by a line feed.
pub open spec fn has_crlf(s: Seq<char>) -> bool {
    exists|i: int| 0 <= i < s.len() - 1 && #[trigger] s[i] == '\r' && s[i + 1] == '\n'
}

/// The line ending of a text: `\r\n` when it holds one, else `\n`.
pub open spec fn newline_of(s: Seq<char>) -> Seq<char> {
    if has_crlf(s) {
        "\r\n"@
    } else {
        "\n"@
    }
}

/// The text written for a league, or why it cannot be written.
pub open spec fn rendered_text(l: LeagueModel) -> Result<Seq<char>, Seq<char>> {
    let source = decoded_text(l.source_bytes);
    let o = parsed_league(l.path, source);
    let nl = newline_of(source);
    match save_check(l, o) {
        Err(e) => Err(e),
        Ok(()) => match header_text(l, nl) {
            Err(e) => Err(e),
            Ok(h) => match render_fold(l, o, nl, h, pieces(source)) {
                Err(e) => Err(e),
                Ok(st) => match finish_original(l, o, nl, st) {
                    Err(e) => Err(e),
                    Ok(out) => Ok(with_new_divisions(out, l, nl, l.divisions.len())),
                },
            },
        },
    }
}

/// The bytes written for a league: the rendered text, read back with the
/// same divisions, in UTF-8 (keeping a byte order mark) when the loaded
/// bytes were non-empty UTF-8, else in Windows-1252.
pub open spec fn rendered_bytes(l: LeagueModel) -> Result<Seq<u8>, Seq<char>> {
    match rendered_text(l) {
        Err(e) => Err(e),
        Ok(text) => if parsed_league(l.path, text).divisions != l.divisions {
            Err("Verifica del file generato fallita: il contenuto non corrisponde alle modifiche."@)
        } else if l.source_bytes.len() > 0 && valid_utf8(l.source_bytes) {
            Ok(utf8_like(l.source_bytes, text))
        } else {
            let (bytes, errors) = windows_1252_encoded(text);
            if errors {
                Err("Un nome contiene caratteri non rappresentabili in Windows-1252."@)
            } else {
                Ok(bytes)
            }
        },
    }
}


// ---------------------------------------------------------------------------
// Executable parts
// ---------------------------------------------------------------------------

/// The four numeric properties of a division with their instruction keys.
pub fn properties(division: &Division) -> (r: [(&'static str, Option<u32>); 4])
    ensures
        forall|i: int| 0 <= i < 4 ==> (#[trigger] r@[i]).0@ == property_list(division@)[i].0 && r@[i].1
            == property_list(division@)[i].1,
{
    [
        ("division", division.level),
        ("promotions", division.promotions),
        ("relegations", division.relegations),
        ("reputation", division.reputation),
    ]
}

/// The first place of the division that comes from division `si`.
fn source_position(sources: &Vec<Option<usize>>, si: usize) -> (r: Option<usize>)
    ensures
        r matches Some(i) ==> position_of_source(sources@, si as nat) == Some(i as nat) && i < sources@.len(),
        r is None ==> position_of_source(sources@, si as nat) is None,
{
    let mut i: usize = 0;
    while i < sources.len()
        invariant
            i <= sources@.len(),
            forall|j: int| 0 <= j < i ==> !(#[trigger] sources@[j] matches Some(x) && x as nat == si),
        decreases sources@.len() - i,
    {
        if sources[i] == Some(si) {
            proof {
                lemma_position_at(sources@, si as nat, i as int);
            }
            return Some(i);
        }
        i += 1;
    }
    proof {
        lemma_position_at(sources@, si as nat, i as int);
    }
    None
}

proof fn lemma_position_in_range(sources: Seq<Option<usize>>, si: nat)
    ensures
        position_of_source(sources, si) matches Some(i) ==> i < sources.len(),
    decreases sources.len(),
{
    if sources.len() > 0 {
        lemma_position_in_range(sources.drop_first(), si);
    }
}

proof fn lemma_position_at(sources: Seq<Option<usize>>, si: nat, i: int)
    requires
        0 <= i <= sources.len(),
        forall|j: int| 0 <= j < i ==> !(#[trigger] sources[j] matches Some(x) && x as nat == si),
    ensures
        i < sources.len() && (sources[i] matches Some(x) && x as nat == si) ==> position_of_source(sources, si)
            == Some(i as nat),
        i == sources.len() ==> position_of_source(sources, si) is None,
    decreases i,
{
    if i > 0 {
        lemma_position_at(sources.drop_first(), si, i - 1);
    }
}

/// Appends each club of `teams` after the first `from`, each followed by `nl`.
fn push_lines(out: &mut Vec<char>, teams: &Vec<String>, from: usize, nl: &[char])
    ensures
        final(out)@ == old(out)@ + lines_of(teams_after(string_views(teams@), from as nat), nl@),
{
    let ghost tv = string_views(teams@);
    if from >= teams.len() {
        assert(lines_of(teams_after(tv, from as nat), nl@) =~= seq![]);
        assert(out@ =~= old(out)@ + seq![]);
        return;
    }
    let ghost rest = tv.skip(from as int);
    let mut i: usize = from;
    assert(rest.take(0) =~= seq![]);
    assert(out@ =~= old(out)@ + lines_of(rest.take(0), nl@));
    while i < teams.len()
        invariant
            from <= i <= teams@.len(),
            tv == string_views(teams@),
            rest == tv.skip(from as int),
            out@ == old(out)@ + lines_of(rest.take(i - from), nl@),
        decreases teams@.len() - i,
    {
        let t = string_chars(&teams[i]);
        assert(tv[i as int] == t@);
        push_all(out, t.as_slice());
        push_all(out, nl);
        proof {
            let k = i - from;
            assert(rest.take(k + 1).drop_last() =~= rest.take(k));
            assert(rest.take(k + 1).last() == t@);
        }
        i += 1;
    }
    assert(rest.take(i - from) =~= rest);
}

/// Appends each text of `teams`, each followed by `nl`.
fn push_all_lines(out: &mut Vec<char>, teams: &Vec<String>, nl: &[char])
    ensures
        final(out)@ == old(out)@ + lines_of(string_views(teams@), nl@),
{
    push_lines(out, teams, 0, nl);
    proof {
        let tv = string_views(teams@);
        if tv.len() > 0 {
            assert(tv.skip(0) =~= tv);
        } else {
            assert(lines_of(tv, nl@) =~= seq![]);
        }
    }
}

fn appended_chars(league: &LeagueFile, original: &LeagueFile, source_index: usize, nl: &[char]) -> (r: Result<Vec<char>, String>)
    requires
        position_of_source(league@.division_sources, source_index as nat) matches Some(i) ==> i < league@.divisions.len(),
    ensures
        match r {
            Ok(s) => appended_text(league@, original@, source_index as nat, nl@) == Ok::<Seq<char>, Seq<char>>(s@),
            Err(e) => appended_text(league@, original@, source_index as nat, nl@) == Err::<Seq<char>, Seq<char>>(e@),
        },
{
    let index = match source_position(&league.division_sources, source_index) {
        Some(i) => i,
        None => {
            return Err(literal("Mappa delle divisioni non valida."));
        },
    };
    if source_index >= original.divisions.len() {
        return Err(literal("Divisione originale non trovata."));
    }
    assert(original@.divisions[source_index as int] == original.divisions@[source_index as int]@);
    assert(league@.divisions[index as int] == league.divisions@[index as int]@);
    let mut out: Vec<char> = Vec::new();
    push_lines(&mut out, &league.divisions[index].teams, original.divisions[source_index].teams.len(), nl);
    assert(out@ =~= lines_of(
        teams_after(league@.divisions[index as int].teams, original@.divisions[source_index as int].teams.len()),
        nl@,
    ));
    Ok(out)
}

/// The clubs appended to the division that comes from division
/// `source_index` of the original text, one per line (see `appended_text`).
pub fn appended_teams(league: &LeagueFile, original: &LeagueFile, source_index: usize, newline: &str) -> (r: Result<String, String>)
    requires
        position_of_source(league@.division_sources, source_index as nat) matches Some(i) ==> i < league@.divisions.len(),
    ensures
        match r {
            Ok(s) => appended_text(league@, original@, source_index as nat, newline@) == Ok::<Seq<char>, Seq<char>>(s@),
            Err(e) => appended_text(league@, original@, source_index as nat, newline@) == Err::<Seq<char>, Seq<char>>(e@),
        },
{
    let nl = to_chars(newline);
    match appended_chars(league, original, source_index, nl.as_slice()) {
        Ok(v) => Ok(from_chars(v.as_slice())),
        Err(e) => Err(e),
    }
}

/// Messages joined by a line feed.
pub(crate) fn join_lines(ms: &Vec<String>) -> (r: Vec<char>)
    ensures
        r@ == joined(string_views(ms@)),
{
    let ghost mv = string_views(ms@);
    let mut out: Vec<char> = Vec::new();
    let mut i: usize = 0;
    assert(mv.take(0) =~= seq![]);
    while i < ms.len()
        invariant
            i <= ms@.len(),
            mv == string_views(ms@),
            out@ == joined(mv.take(i as int)),
        decreases ms@.len() - i,
    {
        if i > 0 {
            push_str(&mut out, "\n");
        }
        let m = string_chars(&ms[i]);
        assert(mv[i as int] == m@);
        push_all(&mut out, m.as_slice());
        proof {
            assert(mv.take(i + 1).drop_last() =~= mv.take(i as int));
            if i == 0 {
                assert(out@ =~= joined(mv.take(1)));
            }
        }
        i += 1;
    }
    assert(mv.take(i as int) =~= mv);
    out
}


proof fn lemma_team_checks_stay(ds: Seq<DivisionModel>, i: int, a: nat, b: nat)
    requires
        a <= b,
        team_checks(ds, i, a) is Err,
    ensures
        team_checks(ds, i, b) == team_checks(ds, i, a),
    decreases b,
{
    if b > a {
        lemma_team_checks_stay(ds, i, a, (b - 1) as nat);
    }
}

proof fn lemma_division_checks_stay(l: LeagueModel, o: LeagueModel, a: nat, b: nat)
    requires
        a <= b,
        divisions_save_check(l, o, a) is Err,
    ensures
        divisions_save_check(l, o, b) == divisions_save_check(l, o, a),
    decreases b,
{
    if b > a {
        lemma_division_checks_stay(l, o, a, (b - 1) as nat);
    }
}

/// Whether `x` stands before club `t` of division `i` (see `seen_before`).
fn seen_earlier(ds: &Vec<Division>, i: usize, t: usize, x: &[char]) -> (r: bool)
    requires
        i < ds@.len(),
        t <= ds@[i as int].teams@.len(),
    ensures
        r == seen_before(division_views(ds@), i as int, t as int, x@),
{
    let ghost dv = division_views(ds@);
    let mut d: usize = 0;
    while d < i
        invariant
            d <= i < ds@.len(),
            dv == division_views(ds@),
            forall|a: int, u: int| 0 <= a < d && 0 <= u < dv[a].teams.len() ==> #[trigger] dv[a].teams[u] != x@,
        decreases i - d,
    {
        assert(dv[d as int] == ds@[d as int]@);
        let teams = &ds[d].teams;
        let mut u: usize = 0;
        while u < teams.len()
            invariant
                u <= teams@.len(),
                d < i < ds@.len(),
                dv == division_views(ds@),
                dv[d as int].teams == string_views(teams@),
                forall|a: int, w: int| 0 <= a < d && 0 <= w < dv[a].teams.len() ==> #[trigger] dv[a].teams[w] != x@,
                forall|w: int| 0 <= w < u ==> #[trigger] dv[d as int].teams[w] != x@,
            decreases teams@.len() - u,
        {
            let here = string_chars(&teams[u]);
            assert(dv[d as int].teams[u as int] == here@);
            if same_chars(here.as_slice(), x) {
                return true;
            }
            u += 1;
        }
        d += 1;
    }
    assert(dv[i as int] == ds@[i as int]@);
    let teams = &ds[i].teams;
    let mut u: usize = 0;
    while u < t
        invariant
            u <= t <= teams@.len(),
            i < ds@.len(),
            dv == division_views(ds@),
            dv[i as int].teams == string_views(teams@),
            forall|a: int, w: int| 0 <= a < i && 0 <= w < dv[a].teams.len() ==> #[trigger] dv[a].teams[w] != x@,
            forall|w: int| 0 <= w < u ==> #[trigger] dv[i as int].teams[w] != x@,
        decreases t - u,
    {
        let here = string_chars(&teams[u]);
        assert(dv[i as int].teams[u as int] == here@);
        if same_chars(here.as_slice(), x) {
            return true;
        }
        u += 1;
    }
    false
}

/// The check of the clubs of division `i` (see `team_checks`).
fn check_teams(ds: &Vec<Division>, i: usize) -> (r: Result<(), String>)
    requires
        i < ds@.len(),
    ensures
        outcome(r) == team_checks(division_views(ds@), i as int, ds@[i as int].teams@.len() as nat),
{
    let ghost dv = division_views(ds@);
    assert(dv[i as int] == ds@[i as int]@);
    let teams = &ds[i].teams;
    let mut t: usize = 0;
    while t < teams.len()
        invariant
            t <= teams@.len(),
            i < ds@.len(),
            dv == division_views(ds@),
            dv[i as int].teams == string_views(teams@),
            teams@ == ds@[i as int].teams@,
            team_checks(dv, i as int, t as nat) == Ok::<(), Seq<char>>(()),
        decreases teams@.len() - t,
    {
        let team = string_chars(&teams[t]);
        assert(dv[i as int].teams[t as int] == team@);
        assert(seq!['!', '+', ':', '*', '#', ';', '$', '@', '='] =~= ['!', '+', ':', '*', '#', ';', '$', '@', '=']@);
        if blank(team.as_slice()) || contains_char(team.as_slice(), '\r') || contains_char(team.as_slice(), '\n')
            || first_in(team.as_slice(), &['!', '+', ':', '*', '#', ';', '$', '@', '=']) {
            let mut m = to_chars("Nome club non valido: ");
            push_all(&mut m, team.as_slice());
            proof {
                assert(team_checks(dv, i as int, (t + 1) as nat) == Err::<(), Seq<char>>(m@));
                lemma_team_checks_stay(dv, i as int, (t + 1) as nat, teams@.len() as nat);
            }
            return Err(from_chars(m.as_slice()));
        }
        if seen_earlier(ds, i, t, team.as_slice()) {
            let mut m = to_chars("Club duplicato: ");
            push_all(&mut m, team.as_slice());
            proof {
                assert(team_checks(dv, i as int, (t + 1) as nat) == Err::<(), Seq<char>>(m@));
                lemma_team_checks_stay(dv, i as int, (t + 1) as nat, teams@.len() as nat);
            }
            return Err(from_chars(m.as_slice()));
        }
        t += 1;
    }
    Ok(())
}

/// The check of division `i` before writing (see `division_save_check`).
fn check_division(league: &LeagueFile, original: &LeagueFile, i: usize) -> (r: Result<(), String>)
    requires
        i < league@.divisions.len(),
        league@.division_sources.len() == league@.divisions.len(),
    ensures
        outcome(r) == division_save_check(league@, original@, i as int),
{
    let ghost dv = league@.divisions;
    let d = &league.divisions[i];
    assert(dv[i as int] == d@);
    let issues = league.division_issues(i);
    if issues.len() > 0 {
        let m = join_lines(&issues);
        return Err(from_chars(m.as_slice()));
    }
    let name = string_chars(&d.name);
    let n = d.teams.len();
    if !(3 <= n && n <= 24) {
        let mut m = copy_chars(name.as_slice());
        push_str(&mut m, ": servono da 3 a 24 squadre.");
        return Err(from_chars(m.as_slice()));
    }
    let bad_level = match d.level {
        Some(v) => v > 12,
        None => true,
    };
    if bad_level {
        let mut m = copy_chars(name.as_slice());
        push_str(&mut m, ": il livello deve essere compreso tra 1 e 12.");
        return Err(from_chars(m.as_slice()));
    }
    let t = trimmed(name.as_slice());
    if contains_char(name.as_slice(), '\r') || contains_char(name.as_slice(), '\n') || !same_chars(t.as_slice(), name.as_slice()) {
        return Err(literal("Il nome divisione non può contenere ritorni a capo o spazi iniziali/finali."));
    }
    let p: u64 = match d.promotions {
        Some(v) => v as u64,
        None => 0,
    };
    let q: u64 = match d.relegations {
        Some(v) => v as u64,
        None => 0,
    };
    if p + q > n as u64 {
        let mut m = copy_chars(name.as_slice());
        push_str(&mut m, ": promozioni e retrocessioni superano il numero di squadre.");
        return Err(from_chars(m.as_slice()));
    }
    let removed = match league.division_sources[i] {
        Some(s) => {
            if s >= original.divisions.len() {
                true
            } else {
                assert(original@.divisions[s as int] == original.divisions@[s as int]@);
                n < original.divisions[s].teams.len()
            }
        },
        None => false,
    };
    if removed {
        return Err(literal("La rimozione di squadre non è ancora supportata nel salvataggio."));
    }
    check_teams(&league.divisions, i)
}

/// The checks of a league before writing (see `save_check`).
fn check_league(league: &LeagueFile, original: &LeagueFile) -> (r: Result<(), String>)
    ensures
        outcome(r) == save_check(league@, original@),
{
    let n = league.divisions.len();
    if n == 0 || n > 12 {
        return Err(literal("Una lega deve contenere da 1 a 12 divisioni."));
    }
    if league.division_sources.len() != n {
        return Err(literal("Mappa delle divisioni non valida."));
    }
    if !levels_form_range(&league.divisions, n as u64) {
        return Err(literal("I livelli devono essere consecutivi da 1, senza buchi."));
    }
    let mut i: usize = 0;
    while i < n
        invariant
            i <= n == league@.divisions.len(),
            league@.division_sources.len() == n,
            divisions_save_check(league@, original@, i as nat) == Ok::<(), Seq<char>>(()),
            save_check(league@, original@) == divisions_save_check(league@, original@, n as nat),
        decreases n - i,
    {
        match check_division(league, original, i) {
            Err(e) => {
                proof {
                    lemma_division_checks_stay(league@, original@, (i + 1) as nat, n as nat);
                }
                return Err(e);
            },
            Ok(()) => {},
        }
        i += 1;
    }
    Ok(())
}


/// Number of pieces whose trimmed body opens a division.
pub open spec fn colon_count(ps: Seq<Seq<char>>) -> nat
    decreases ps.len(),
{
    if ps.len() == 0 {
        0
    } else {
        colon_count(ps.drop_last()) + if starts_with(trim(line_body(ps.last())), ':') {
            1nat
        } else {
            0nat
        }
    }
}

proof fn lemma_scan_counts_divisions(ps: Seq<Seq<char>>)
    ensures
        league_scan(bodies(ps)).divisions.len() == colon_count(ps),
        league_scan(bodies(ps)).current matches Some(d) ==> d < league_scan(bodies(ps)).divisions.len(),
    decreases ps.len(),
{
    if ps.len() > 0 {
        lemma_scan_counts_divisions(ps.drop_last());
        let st = league_scan(bodies(ps.drop_last()));
        let line = trim(line_body(ps.last()));
        if line.len() > 0 && starts_with(line, ':') {
            assert(!starts_with_any(line, seq!['#', ';']));
        }
        assert(bodies(ps).drop_last() =~= bodies(ps.drop_last()));
        assert(bodies(ps).last() == line_body(ps.last()));
    }
}

proof fn lemma_colon_count_monotone(ps: Seq<Seq<char>>, i: int)
    requires
        0 <= i <= ps.len(),
    ensures
        colon_count(ps.take(i)) <= colon_count(ps),
    decreases ps.len() - i,
{
    if i < ps.len() {
        assert(ps.drop_last().take(i) =~= ps.take(i));
        lemma_colon_count_monotone(ps.drop_last(), i);
    } else {
        assert(ps.take(i) =~= ps);
    }
}

/// The new text of a property line with key `key` (see `property_replacement`).
fn replacement_for(changed: &Division, previous: &Division, key: &[char]) -> (r: Result<Option<Vec<char>>, String>)
    ensures
        match r {
            Ok(Some(v)) => property_replacement(changed@, previous@, key@, 4) == Ok::<Option<Seq<char>>, Seq<char>>(Some(v@)),
            Ok(None) => property_replacement(changed@, previous@, key@, 4) == Ok::<Option<Seq<char>>, Seq<char>>(None),
            Err(e) => property_replacement(changed@, previous@, key@, 4) == Err::<Option<Seq<char>>, Seq<char>>(e@),
        },
{
    let new_props = properties(changed);
    let old_props = properties(previous);
    let mut rep: Option<Vec<char>> = None;
    let mut k: usize = 0;
    while k < 4
        invariant
            k <= 4,
            forall|i: int| 0 <= i < 4 ==> (#[trigger] new_props@[i]).0@ == property_list(changed@)[i].0
                && new_props@[i].1 == property_list(changed@)[i].1,
            forall|i: int| 0 <= i < 4 ==> (#[trigger] old_props@[i]).1 == property_list(previous@)[i].1,
            property_replacement(changed@, previous@, key@, k as nat) == Ok::<Option<Seq<char>>, Seq<char>>(
                match rep {
                    Some(v) => Some(v@),
                    None => None,
                },
            ),
        decreases 4 - k,
    {
        let (field, value) = new_props[k];
        let (_, old) = old_props[k];
        let f = to_chars(field);
        assert(new_props@[k as int].0 == field);
        if same_ignoring_case(key, f.as_slice()) && value != old {
            match value {
                None => {
                    let mut m = to_chars("Rimozione del parametro ");
                    push_all(&mut m, f.as_slice());
                    push_str(&mut m, " non supportata.");
                    proof {
                        assert(property_replacement(changed@, previous@, key@, (k + 1) as nat) == Err::<Option<Seq<char>>, Seq<char>>(m@));
                        lemma_replacement_stays(changed@, previous@, key@, (k + 1) as nat, 4);
                    }
                    return Err(from_chars(m.as_slice()));
                },
                Some(v) => {
                    let mut m = to_chars("+ ");
                    push_all(&mut m, key);
                    push_str(&mut m, " ");
                    push_decimal(&mut m, v as u64);
                    rep = Some(m);
                },
            }
        }
        k += 1;
    }
    Ok(rep)
}

proof fn lemma_replacement_stays(changed: DivisionModel, previous: DivisionModel, key: Seq<char>, a: nat, b: nat)
    requires
        a <= b,
        property_replacement(changed, previous, key, a) is Err,
    ensures
        property_replacement(changed, previous, key, b) == property_replacement(changed, previous, key, a),
    decreases b,
{
    if b > a {
        lemma_replacement_stays(changed, previous, key, a, (b - 1) as nat);
    }
}


/// The plain-value form of an optional text.
pub open spec fn text_view(v: Option<Vec<char>>) -> Option<Seq<char>> {
    match v {
        Some(x) => Some(x@),
        None => None,
    }
}

/// Writes one original line (see `emit`).
fn emit_line(out: &mut Vec<char>, prefix: &[char], raw: &[char], rep: Option<Vec<char>>, additions: &[char], nl: &[char])
    ensures
        final(out)@ == emit(old(out)@, prefix@, raw@, text_view(rep), additions@, nl@),
{
    let n = body_len(raw);
    let body = sub_chars(raw, 0, n);
    push_all(out, prefix);
    match rep {
        Some(r) => {
            let k = leading_ws_len(body.as_slice());
            let e = trimmed_end_len(body.as_slice());
            let lead = sub_chars(body.as_slice(), 0, k);
            let trail = sub_chars(body.as_slice(), e, body.len());
            let ending = sub_chars(raw, n, raw.len());
            assert(lead@ =~= leading_ws(body@));
            assert(trail@ =~= trailing_ws(body@));
            push_all(out, lead.as_slice());
            push_all(out, r.as_slice());
            push_all(out, trail.as_slice());
            push_all(out, ending.as_slice());
        },
        None => {
            push_all(out, raw);
        },
    }
    if additions.len() > 0 {
        if n == raw.len() {
            push_all(out, nl);
        }
        push_all(out, additions);
    }
    assert(out@ =~= emit(old(out)@, prefix@, raw@, text_view(rep), additions@, nl@));
}

/// The property lines to add to a division header (see `added_properties`).
fn additions_for(changed: &Division, previous: &Division, nl: &[char]) -> (r: Vec<char>)
    ensures
        r@ == added_properties(changed@, previous@, nl@, 4),
{
    let new_props = properties(changed);
    let old_props = properties(previous);
    let mut out: Vec<char> = Vec::new();
    let mut k: usize = 0;
    while k < 4
        invariant
            k <= 4,
            forall|i: int| 0 <= i < 4 ==> (#[trigger] new_props@[i]).0@ == property_list(changed@)[i].0
                && new_props@[i].1 == property_list(changed@)[i].1,
            forall|i: int| 0 <= i < 4 ==> (#[trigger] old_props@[i]).1 == property_list(previous@)[i].1,
            out@ == added_properties(changed@, previous@, nl@, k as nat),
        decreases 4 - k,
    {
        let (field, value) = new_props[k];
        let (_, old) = old_props[k];
        assert(new_props@[k as int].0 == field);
        if old.is_none() {
            match value {
                Some(v) => {
                    push_str(&mut out, "+ ");
                    push_str(&mut out, field);
                    push_str(&mut out, " ");
                    push_decimal(&mut out, v as u64);
                    push_all(&mut out, nl);
                },
                None => {},
            }
        }
        k += 1;
        assert(out@ =~= added_properties(changed@, previous@, nl@, k as nat));
    }
    out
}

/// The first word of `v` (see `first_word`).
fn first_word_of(v: &[char]) -> (r: Vec<char>)
    ensures
        r@ == first_word(v@),
{
    let k = leading_ws_len(v);
    let t = sub_chars(v, k, v.len());
    assert(t@ =~= trim_start(v@));
    let mut i: usize = 0;
    while i < t.len() && !char_is_ws(t[i])
        invariant
            i <= t@.len(),
            forall|j: int| 0 <= j < i ==> !is_ws(#[trigger] t@[j]),
        decreases t@.len() - i,
    {
        i += 1;
    }
    proof {
        lemma_find_ws_at(t@, i as int);
    }
    if i < t.len() {
        sub_chars(t.as_slice(), 0, i)
    } else {
        t
    }
}

struct RenderWriter {
    output: Vec<char>,
    division: Option<usize>,
    next_division: usize,
    team_index: usize,
}

impl View for RenderWriter {
    type V = RenderState;

    closed spec fn view(&self) -> RenderState {
        RenderState {
            output: self.output@,
            division: match self.division {
                Some(d) => Some(d as nat),
                None => None,
            },
            next_division: self.next_division as nat,
            team_index: self.team_index as nat,
        }
    }
}

impl RenderWriter {
    fn step(&mut self, league: &LeagueFile, original: &LeagueFile, nl: &[char], raw: &[char]) -> (r: Result<(), String>)
        requires
            league@.division_sources.len() == league@.divisions.len(),
            old(self).division matches Some(si) ==> si < original@.divisions.len(),
            starts_with(trim(line_body(raw@)), ':') ==> old(self).next_division < original@.divisions.len(),
        ensures
            match r {
                Ok(()) => render_step(league@, original@, nl@, old(self)@, raw@) == Ok::<RenderState, Seq<char>>(final(self)@),
                Err(e) => render_step(league@, original@, nl@, old(self)@, raw@) == Err::<RenderState, Seq<char>>(e@),
            },
    {
        let empty: Vec<char> = Vec::new();
        assert(empty@ =~= seq![]);
        let n = body_len(raw);
        let body = sub_chars(raw, 0, n);
        assert(body@ =~= line_body(raw@));
        let tr = trimmed(body.as_slice());
        proof {
            if let Some(si) = self.division {
                lemma_position_in_range(league@.division_sources, si as nat);
            }
            lemma_position_in_range(league@.division_sources, self.next_division as nat);
        }
        let opens = first_is(tr.as_slice(), ':') || first_is(tr.as_slice(), '*');
        let mut prefix: Vec<char> = Vec::new();
        if opens {
            match self.division {
                Some(si) => {
                    match appended_chars(league, original, si, nl) {
                        Ok(p) => {
                            prefix = p;
                        },
                        Err(e) => {
                            return Err(e);
                        },
                    }
                },
                None => {},
            }
        }
        if first_is(tr.as_slice(), ':') {
            let si = self.next_division;
            assert(starts_with(trim(line_body(raw@)), ':'));
            assert(original@.divisions.len() == original.divisions@.len());
            let total = original.divisions.len();
            assert(si < total);
            self.next_division = si + 1;
            self.division = Some(si);
            let idx = match source_position(&league.division_sources, si) {
                Some(i) => i,
                None => {
                    return Ok(());
                },
            };
            let changed = &league.divisions[idx];
            let previous = &original.divisions[si];
            assert(league@.divisions[idx as int] == changed@);
            assert(original@.divisions[si as int] == previous@);
            let rep = if !same_string(&changed.name, &previous.name) {
                let mut m = to_chars(": ");
                let name = string_chars(&changed.name);
                push_all(&mut m, name.as_slice());
                Some(m)
            } else {
                None
            };
            let additions = additions_for(changed, previous, nl);
            emit_line(&mut self.output, prefix.as_slice(), raw, rep, additions.as_slice(), nl);
            self.team_index = 0;
            return Ok(());
        }
        if first_is(tr.as_slice(), '*') {
            emit_line(&mut self.output, prefix.as_slice(), raw, None, empty.as_slice(), nl);
            self.division = None;
            return Ok(());
        }
        match self.division {
            Some(si) => {
                let idx = match source_position(&league.division_sources, si) {
                    Some(i) => i,
                    None => {
                        return Ok(());
                    },
                };
                let changed = &league.divisions[idx];
                let previous = &original.divisions[si];
                assert(league@.divisions[idx as int] == changed@);
                assert(original@.divisions[si as int] == previous@);
                if first_is(tr.as_slice(), '+') {
                    let rest = sub_chars(tr.as_slice(), 1, tr.len());
                    assert(rest@ =~= tr@.drop_first());
                    let key = first_word_of(rest.as_slice());
                    match replacement_for(changed, previous, key.as_slice()) {
                        Err(e) => {
                            return Err(e);
                        },
                        Ok(rep) => {
                            emit_line(&mut self.output, prefix.as_slice(), raw, rep, empty.as_slice(), nl);
                            return Ok(());
                        },
                    }
                }
                assert(not_roster_chars() =~= ['!', '#', ';', '$', '@', '=']@);
                if tr.len() > 0 && !first_in(tr.as_slice(), &['!', '#', ';', '$', '@', '=']) {
                    if self.team_index >= changed.teams.len() {
                        return Err(literal("Impossibile associare una riga della rosa."));
                    }
                    let team = string_chars(&changed.teams[self.team_index]);
                    assert(changed@.teams[self.team_index as int] == team@);
                    let rep = if !same_chars(team.as_slice(), tr.as_slice()) {
                        Some(team)
                    } else {
                        None
                    };
                    emit_line(&mut self.output, prefix.as_slice(), raw, rep, empty.as_slice(), nl);
                    self.team_index = self.team_index + 1;
                    return Ok(());
                }
                emit_line(&mut self.output, prefix.as_slice(), raw, None, empty.as_slice(), nl);
                Ok(())
            },
            None => {
                emit_line(&mut self.output, prefix.as_slice(), raw, None, empty.as_slice(), nl);
                Ok(())
            },
        }
    }
}


proof fn lemma_render_fold_stays(l: LeagueModel, o: LeagueModel, nl: Seq<char>, start: Seq<char>, ps: Seq<Seq<char>>, a: int)
    requires
        0 <= a <= ps.len(),
        render_fold(l, o, nl, start, ps.take(a)) is Err,
    ensures
        render_fold(l, o, nl, start, ps) == render_fold(l, o, nl, start, ps.take(a)),
    decreases ps.len() - a,
{
    if a < ps.len() {
        assert(ps.drop_last().take(a) =~= ps.take(a));
        lemma_render_fold_stays(l, o, nl, start, ps.drop_last(), a);
    } else {
        assert(ps.take(a) =~= ps);
    }
}

/// Whether `v` holds `\r\n`.
pub(crate) fn holds_crlf(v: &[char]) -> (r: bool)
    ensures
        r == has_crlf(v@),
{
    let mut i: usize = 0;
    while i < v.len() && i + 1 < v.len()
        invariant
            i <= v@.len(),
            forall|j: int| 0 <= j < i && j < v@.len() - 1 ==> !(#[trigger] v@[j] == '\r' && v@[j + 1] == '\n'),
        decreases v@.len() - i,
    {
        if v[i] == '\r' && v[i + 1] == '\n' {
            assert(v@[i as int] == '\r' && v@[i + 1] == '\n');
            return true;
        }
        i += 1;
    }
    false
}

/// Whether `v` holds a double quote or a line break.
fn breaks_quoting(v: &String) -> (r: bool)
    ensures
        r == (v@.contains('"') || v@.contains('\r') || v@.contains('\n')),
{
    let c = string_chars(v);
    contains_char(c.as_slice(), '"') || contains_char(c.as_slice(), '\r') || contains_char(c.as_slice(), '\n')
}

/// The header of a league that has no file yet (see `header_text`).
fn header_for(league: &LeagueFile, nl: &[char]) -> (r: Result<Vec<char>, String>)
    ensures
        match r {
            Ok(h) => header_text(league@, nl@) == Ok::<Seq<char>, Seq<char>>(h@),
            Err(e) => header_text(league@, nl@) == Err::<Seq<char>, Seq<char>>(e@),
        },
{
    let mut out: Vec<char> = Vec::new();
    if league.source_bytes.len() > 0 {
        assert(out@ =~= seq![]);
        return Ok(out);
    }
    match validate_filename(league.country.as_str()) {
        Err(e) => {
            return Err(e);
        },
        Ok(()) => {},
    }
    let ghost nf = league@.name_files;
    if league.name_files.len() != 2 {
        return Err(literal("Servono due percorsi validi per gli archivi dei nomi."));
    }
    assert(nf[0] == league.name_files@[0]@);
    assert(nf[1] == league.name_files@[1]@);
    if breaks_quoting(&league.name_files[0]) || breaks_quoting(&league.name_files[1]) {
        return Err(literal("Servono due percorsi validi per gli archivi dei nomi."));
    }
    push_str(&mut out, "! Country \"");
    let c = string_chars(&league.country);
    push_all(&mut out, c.as_slice());
    push_str(&mut out, "\"");
    push_all(&mut out, nl);
    push_str(&mut out, "! Names \"");
    let a = string_chars(&league.name_files[0]);
    push_all(&mut out, a.as_slice());
    push_str(&mut out, "\" \"");
    let b = string_chars(&league.name_files[1]);
    push_all(&mut out, b.as_slice());
    push_str(&mut out, "\"");
    push_all(&mut out, nl);
    assert(out@ =~= "! Country \""@ + league@.country + "\""@ + nl@ + "! Names \""@ + nf[0] + "\" \""@ + nf[1] + "\""@ + nl@);
    Ok(out)
}

/// Appends `more` to `out`, on a new line when `out` does not end one.
fn push_on_new_line(out: &mut Vec<char>, nl: &[char], more: &[char])
    ensures
        final(out)@ == on_new_line(old(out)@, nl@, more@),
{
    if out.len() > 0 && out[out.len() - 1] != '\n' {
        push_all(out, nl);
    }
    push_all(out, more);
    assert(final(out)@ =~= on_new_line(old(out)@, nl@, more@));
}

/// The lines of the properties that a division has (see `present_properties`).
fn present_for(d: &Division, nl: &[char]) -> (r: Vec<char>)
    ensures
        r@ == present_properties(d@, nl@, 4),
{
    let props = properties(d);
    let mut out: Vec<char> = Vec::new();
    let mut k: usize = 0;
    while k < 4
        invariant
            k <= 4,
            forall|i: int| 0 <= i < 4 ==> (#[trigger] props@[i]).0@ == property_list(d@)[i].0 && props@[i].1
                == property_list(d@)[i].1,
            out@ == present_properties(d@, nl@, k as nat),
        decreases 4 - k,
    {
        let (field, value) = props[k];
        assert(props@[k as int].0 == field);
        match value {
            Some(v) => {
                push_str(&mut out, "+ ");
                push_str(&mut out, field);
                push_str(&mut out, " ");
                push_decimal(&mut out, v as u64);
                push_all(&mut out, nl);
            },
            None => {},
        }
        k += 1;
        assert(out@ =~= present_properties(d@, nl@, k as nat));
    }
    out
}

/// Appends the new divisions of the league (see `with_new_divisions`).
fn push_new_divisions(out: &mut Vec<char>, league: &LeagueFile, nl: &[char])
    requires
        league@.division_sources.len() == league@.divisions.len(),
    ensures
        final(out)@ == with_new_divisions(old(out)@, league@, nl@, league@.divisions.len()),
{
    let ghost l = league@;
    let mut i: usize = 0;
    while i < league.divisions.len()
        invariant
            i <= league.divisions@.len(),
            l == league@,
            l.division_sources.len() == l.divisions.len(),
            out@ == with_new_divisions(old(out)@, l, nl@, i as nat),
        decreases league.divisions@.len() - i,
    {
        let d = &league.divisions[i];
        assert(l.divisions[i as int] == d@);
        if league.division_sources[i].is_none() {
            let mut text = to_chars(": ");
            let name = string_chars(&d.name);
            push_all(&mut text, name.as_slice());
            push_all(&mut text, nl);
            let props = present_for(d, nl);
            push_all(&mut text, props.as_slice());
            let mut teams: Vec<char> = Vec::new();
            push_all_lines(&mut teams, &d.teams, nl);
            push_all(&mut text, teams.as_slice());
            assert(text@ =~= new_division_text(d@, nl@));
            push_on_new_line(out, nl, text.as_slice());
        }
        i += 1;
    }
}

/// Whether two strings sequences hold the same texts.
pub(crate) fn same_strings(a: &Vec<String>, b: &Vec<String>) -> (r: bool)
    ensures
        r == (string_views(a@) == string_views(b@)),
{
    if a.len() != b.len() {
        assert(string_views(a@).len() != string_views(b@).len());
        return false;
    }
    let mut i: usize = 0;
    while i < a.len()
        invariant
            i <= a@.len() == b@.len(),
            forall|j: int| 0 <= j < i ==> #[trigger] string_views(a@)[j] == string_views(b@)[j],
        decreases a@.len() - i,
    {
        if !same_string(&a[i], &b[i]) {
            assert(string_views(a@)[i as int] != string_views(b@)[i as int]);
            return false;
        }
        i += 1;
    }
    assert(string_views(a@) =~= string_views(b@));
    true
}

/// Whether two divisions hold the same values.
fn same_division(a: &Division, b: &Division) -> (r: bool)
    ensures
        r == (a@ == b@),
{
    let r = same_string(&a.name, &b.name) && a.level == b.level && a.promotions == b.promotions
        && a.relegations == b.relegations && a.reputation == b.reputation && same_strings(&a.teams, &b.teams);
    r
}

/// Whether two sequences of divisions hold the same values.
pub fn same_divisions(a: &Vec<Division>, b: &Vec<Division>) -> (r: bool)
    ensures
        r == (division_views(a@) == division_views(b@)),
{
    if a.len() != b.len() {
        assert(division_views(a@).len() != division_views(b@).len());
        return false;
    }
    let mut i: usize = 0;
    while i < a.len()
        invariant
            i <= a@.len() == b@.len(),
            forall|j: int| 0 <= j < i ==> #[trigger] division_views(a@)[j] == division_views(b@)[j],
        decreases a@.len() - i,
    {
        if !same_division(&a[i], &b[i]) {
            assert(division_views(a@)[i as int] != division_views(b@)[i as int]);
            return false;
        }
        i += 1;
    }
    assert(division_views(a@) =~= division_views(b@));
    true
}

/// Renders a league back to the bytes of its file (see `rendered_bytes`):
/// the loaded text with only the changed values and club names replaced,
/// appended clubs and new divisions written, checked by reading it back.
pub fn render(league: &LeagueFile) -> (r: Result<Vec<u8>, String>)
    ensures
        match r {
            Ok(b) => rendered_bytes(league@) == Ok::<Seq<u8>, Seq<char>>(b@),
            Err(e) => rendered_bytes(league@) == Err::<Seq<u8>, Seq<char>>(e@),
        },
{
    let ghost l = league@;
    let source = decode_text(league.source_bytes.as_slice());
    let original = parse_league(league.path.as_str(), source.as_str());
    let ghost o = original@;
    assert(o == parsed_league(l.path, decoded_text(l.source_bytes)));
    match check_league(league, &original) {
        Err(e) => {
            return Err(e);
        },
        Ok(()) => {},
    }
    let src = to_chars(source.as_str());
    let nl = if holds_crlf(src.as_slice()) {
        to_chars("\r\n")
    } else {
        to_chars("\n")
    };
    assert(nl@ == newline_of(src@));
    let header = match header_for(league, nl.as_slice()) {
        Err(e) => {
            return Err(e);
        },
        Ok(h) => h,
    };
    let ps = split_pieces(src.as_slice());
    let ghost pv = char_views(ps@);
    proof {
        lemma_scan_counts_divisions(pv);
        assert(o.divisions.len() == colon_count(pv));
        assert(pv.take(0) =~= seq![]);
    }
    let mut writer = RenderWriter { output: header, division: None, next_division: 0, team_index: 0 };
    let mut i: usize = 0;
    while i < ps.len()
        invariant
            i <= ps@.len(),
            pv == char_views(ps@),
            pv == pieces(src@),
            l == league@,
            o == original@,
            l.division_sources.len() == l.divisions.len(),
            o.divisions.len() == colon_count(pv),
            src@ == decoded_text(l.source_bytes),
            o == parsed_league(l.path, src@),
            nl@ == newline_of(src@),
            save_check(l, o) == Ok::<(), Seq<char>>(()),
            header_text(l, nl@) == Ok::<Seq<char>, Seq<char>>(header@),
            writer.next_division as nat == colon_count(pv.take(i as int)),
            writer.division matches Some(si) ==> si < writer.next_division,
            render_fold(l, o, nl@, header@, pv.take(i as int)) == Ok::<RenderState, Seq<char>>(writer@),
        decreases ps@.len() - i,
    {
        assert(pv[i as int] == ps@[i as int]@);
        proof {
            assert(pv.take(i + 1).drop_last() =~= pv.take(i as int));
            assert(pv.take(i + 1).last() == pv[i as int]);
            lemma_colon_count_monotone(pv, i + 1);
        }
        let ghost before = writer@;
        match writer.step(league, &original, nl.as_slice(), ps[i].as_slice()) {
            Err(e) => {
                proof {
                    assert(render_step(l, o, nl@, before, pv[i as int]) == Err::<RenderState, Seq<char>>(e@));
                    assert(render_fold(l, o, nl@, header@, pv.take(i + 1)) == Err::<RenderState, Seq<char>>(e@));
                    lemma_render_fold_stays(l, o, nl@, header@, pv, i + 1);
                    assert(rendered_text(l) == Err::<Seq<char>, Seq<char>>(e@));
                }
                return Err(e);
            },
            Ok(()) => {},
        }
        i += 1;
    }
    assert(pv.take(i as int) =~= pv);
    let mut out = writer.output;
    match writer.division {
        Some(si) => {
            proof {
                lemma_position_in_range(l.division_sources, si as nat);
            }
            match appended_chars(league, &original, si, nl.as_slice()) {
                Err(e) => {
                    return Err(e);
                },
                Ok(a) => {
                    if a.len() > 0 {
                        push_on_new_line(&mut out, nl.as_slice(), a.as_slice());
                    }
                },
            }
        },
        None => {},
    }
    push_new_divisions(&mut out, league, nl.as_slice());
    assert(rendered_text(l) == Ok::<Seq<char>, Seq<char>>(out@));
    let text = from_chars(out.as_slice());
    let reparsed = parse_league(league.path.as_str(), text.as_str());
    if !same_divisions(&reparsed.divisions, &league.divisions) {
        return Err(literal("Verifica del file generato fallita: il contenuto non corrisponde alle modifiche."));
    }
    if league.source_bytes.len() > 0 && utf8_text(league.source_bytes.as_slice()).is_some() {
        return Ok(utf8_bytes_like(league.source_bytes.as_slice(), text.as_str()));
    }
    let (bytes, errors) = windows_1252_encode(text.as_str());
    if errors {
        return Err(literal("Un nome contiene caratteri non rappresentabili in Windows-1252."));
    }
    Ok(bytes)
}

/// What a read gives back of a write: the bytes rendered for a league kept
/// in UTF-8, decoded and parsed again, hold exactly the league's divisions,
/// and they start with a byte order mark exactly when the file read did.
pub proof fn law_render_reads_back(l: LeagueModel, bytes: Seq<u8>, text: Seq<char>)
    requires
        rendered_bytes(l) == Ok::<Seq<u8>, Seq<char>>(bytes),
        rendered_text(l) == Ok::<Seq<char>, Seq<char>>(text),
        l.source_bytes.len() > 0,
        valid_utf8(l.source_bytes),
    ensures
        parsed_league(l.path, decoded_text(bytes)).divisions == l.divisions,
        has_bom(bytes) <==> has_bom(l.source_bytes),
{
    broadcast use vstd::utf8::encode_utf8_valid_utf8, vstd::utf8::encode_utf8_decode_utf8;
    crate::save_laws::lemma_rendered_text_start(l, text);
    law_utf8_reads_back(l.source_bytes, text);
    if has_bom(l.source_bytes) {
        assert(bytes.take(3) =~= utf8_bom());
    } else if has_bom(bytes) {
        lemma_bom_decodes(bytes);
        assert(decode_utf8(bytes) == text);
        assert(text[0] == '\u{feff}');
    }
}

proof fn lemma_divisions_check_fails(l: LeagueModel, o: LeagueModel, n: nat, i: int)
    requires
        0 <= i < n,
        n <= l.divisions.len(),
        division_issues_of(l.divisions, i).len() > 0,
    ensures
        divisions_save_check(l, o, n) is Err,
    decreases n,
{
    if i < n - 1 {
        lemma_divisions_check_fails(l, o, (n - 1) as nat, i);
    }
}

/// A division's reputation must be from 1 to 20: a division with another
/// reputation is reported among its issues, and a league that holds one is
/// never written.
pub proof fn law_reputation_out_of_range_is_refused(l: LeagueModel, i: int)
    requires
        0 <= i < l.divisions.len(),
        l.divisions[i].reputation matches Some(v) && !(1 <= v <= 20),
    ensures
        division_issues_of(l.divisions, i).contains("Reputazione: usa un valore da 1 a 20."@),
        rendered_bytes(l) is Err,
{
    let issues = division_issues_of(l.divisions, i);
    assert(issues[issues.len() - 1] == "Reputazione: usa un valore da 1 a 20."@);
    let src = decoded_text(l.source_bytes);
    let o = parsed_league(l.path, src);
    let ds = l.divisions;
    if !(ds.len() == 0 || ds.len() > 12) && l.division_sources.len() == ds.len() && levels_one_to(ds, ds.len()) {
        lemma_divisions_check_fails(l, o, ds.len(), i);
    }
}

} // verus!
