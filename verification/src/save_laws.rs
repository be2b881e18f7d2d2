//! What saving promises: a league left as it was read is written back byte
//! for byte, and the international file keeps its lines when written.
use vstd::prelude::*;
use vstd::utf8::{decode_utf8, valid_utf8};
use crate::encoding::{decode_text, decoded_text, has_bom, lemma_utf8_text_start, law_utf8_text_writes_back, sniffed_bom, windows_1252_encoded};
use crate::league_save::{RenderState, new_division_text, added_properties, appended_text, emit, finish_original, first_word, header_text, lines_of, newline_of, not_roster_chars, position_of_source, property_replacement, render_fold, render_step, rendered_bytes, rendered_text, save_check, teams_after, with_new_divisions};
use crate::leagues::{DivisionModel, LeagueFile, LeagueModel, LeagueScan, identity_sources, league_scan, league_step, parse_league, parsed_league};
use crate::text::{lemma_trim_start_suffix, leading_ws, line_body, line_ending, lines, piece_len, pieces, starts_with, starts_with_any, trailing_ws, trim};
use crate::leagues::{CountryModel};
use crate::world_save::{international_text, intl_fold, intl_step};

verus! {

/// The pieces of a text put back together.
pub open spec fn flat(ps: Seq<Seq<char>>) -> Seq<char>
    decreases ps.len(),
{
    if ps.len() == 0 {
        seq![]
    } else {
        flat(ps.drop_last()) + ps.last()
    }
}

proof fn lemma_flat_front(x: Seq<char>, ys: Seq<Seq<char>>)
    ensures
        flat(seq![x] + ys) == x + flat(ys),
    decreases ys.len(),
{
    let z = seq![x] + ys;
    assert(z.last() == if ys.len() == 0 { x } else { ys.last() });
    if ys.len() == 0 {
        assert(z.drop_last() =~= seq![]);
        assert(z.drop_last().len() == 0);
        assert(flat(z.drop_last()) == Seq::<char>::empty());
        assert(flat(z) == flat(z.drop_last()) + z.last());
        assert(flat(z) =~= x);
        assert(x + flat(ys) =~= x);
    } else {
        assert(z.drop_last() =~= seq![x] + ys.drop_last());
        lemma_flat_front(x, ys.drop_last());
        assert(x + flat(ys) =~= x + flat(ys.drop_last()) + ys.last());
        assert(flat(z) == flat(z.drop_last()) + z.last());
    }
}

/// The pieces of a text put back together give the text.
pub proof fn lemma_pieces_flat(s: Seq<char>)
    ensures
        flat(pieces(s)) == s,
    decreases s.len(),
{
    if s.len() > 0 {
        let n = piece_len(s);
        lemma_piece_len_bounds(s);
        if 0 < n <= s.len() {
            lemma_pieces_flat(s.skip(n as int));
            lemma_flat_front(s.take(n as int), pieces(s.skip(n as int)));
            assert(s.take(n as int) + s.skip(n as int) =~= s);
        } else {
            assert(seq![s].drop_last() =~= seq![]);
            assert(seq![] + s =~= s);
        }
    }
}

proof fn lemma_piece_len_bounds(s: Seq<char>)
    ensures
        piece_len(s) <= s.len(),
        s.len() > 0 ==> piece_len(s) > 0,
    decreases s.len(),
{
    if s.len() > 0 && s[0] != '\n' {
        lemma_piece_len_bounds(s.drop_first());
    }
}

proof fn lemma_marks(c: char)
    ensures
        seq!['#', ';'].contains(c) <==> (c == '#' || c == ';'),
        seq!['$', '@', '='].contains(c) <==> (c == '$' || c == '@' || c == '='),
        not_roster_chars().contains(c) <==> (c == '!' || c == '#' || c == ';' || c == '$' || c == '@' || c == '='),
{
    let a = seq!['#', ';'];
    let b = seq!['$', '@', '='];
    let r = not_roster_chars();
    if a.contains(c) {
        let i = choose|i: int| 0 <= i < a.len() && a[i] == c;
        assert(i == 0 || i == 1);
    }
    if c == '#' {
        assert(a[0] == c);
        assert(r[1] == c);
    }
    if c == ';' {
        assert(a[1] == c);
        assert(r[2] == c);
    }
    if b.contains(c) {
        let i = choose|i: int| 0 <= i < b.len() && b[i] == c;
        assert(i == 0 || i == 1 || i == 2);
    }
    if c == '$' {
        assert(b[0] == c);
        assert(r[3] == c);
    }
    if c == '@' {
        assert(b[1] == c);
        assert(r[4] == c);
    }
    if c == '=' {
        assert(b[2] == c);
        assert(r[5] == c);
    }
    if c == '!' {
        assert(r[0] == c);
    }
    if r.contains(c) {
        let i = choose|i: int| 0 <= i < r.len() && r[i] == c;
        assert(0 <= i < 6);
    }
}

/// Whether the clubs of `a` are, division by division, the first clubs of
/// `b`, which has at least as many divisions.
pub open spec fn teams_prefix(a: LeagueScan, b: LeagueScan) -> bool {
    &&& a.divisions.len() <= b.divisions.len()
    &&& forall|d: int|
        0 <= d < a.divisions.len() ==> (#[trigger] a.divisions[d]).teams.len() <= b.divisions[d].teams.len()
            && b.divisions[d].teams.take(a.divisions[d].teams.len() as int) == a.divisions[d].teams
}

/// Whether the division being read is one of the divisions read.
pub open spec fn scan_wf(a: LeagueScan) -> bool {
    a.current matches Some(d) ==> d < a.divisions.len() && d + 1 == a.divisions.len()
}

proof fn lemma_prefix_trans(a: LeagueScan, b: LeagueScan, c: LeagueScan)
    requires
        teams_prefix(a, b),
        teams_prefix(b, c),
    ensures
        teams_prefix(a, c),
{
    assert forall|d: int| 0 <= d < a.divisions.len() implies (#[trigger] a.divisions[d]).teams.len()
        <= c.divisions[d].teams.len() && c.divisions[d].teams.take(a.divisions[d].teams.len() as int)
        == a.divisions[d].teams by {
        let ta = a.divisions[d].teams;
        let tb = b.divisions[d].teams;
        let tc = c.divisions[d].teams;
        assert(b.divisions[d].teams.len() <= c.divisions[d].teams.len());
        assert(tc.take(tb.len() as int) == tb);
        assert(tb.take(ta.len() as int) == ta);
        assert(tc.take(ta.len() as int) =~= tb.take(ta.len() as int));
    }
}

proof fn lemma_step_prefix(st: LeagueScan, index: nat, raw: Seq<char>)
    requires
        scan_wf(st),
    ensures
        teams_prefix(st, league_step(st, index, raw)),
        scan_wf(league_step(st, index, raw)),
{
    let n = league_step(st, index, raw);
    let line = trim(raw);
    assert forall|d: int| 0 <= d < st.divisions.len() implies (#[trigger] st.divisions[d]).teams.len()
        <= n.divisions[d].teams.len() && n.divisions[d].teams.take(st.divisions[d].teams.len() as int)
        == st.divisions[d].teams by {
        let t = st.divisions[d].teams;
        if n.divisions[d].teams == t {
            assert(t.take(t.len() as int) =~= t);
        } else {
            assert(n.divisions[d].teams == t.push(line));
            assert(t.push(line).take(t.len() as int) =~= t);
        }
    }
}

proof fn lemma_scan_prefix(ls: Seq<Seq<char>>, k: nat, m: nat)
    requires
        k <= m <= ls.len(),
    ensures
        teams_prefix(league_scan(ls.take(k as int)), league_scan(ls.take(m as int))),
        scan_wf(league_scan(ls.take(m as int))),
    decreases m,
{
    if m == 0 {
        assert(ls.take(0) =~= seq![]);
        assert(ls.take(k as int) =~= seq![]);
    } else {
        let prev = (m - 1) as nat;
        assert(ls.take(m as int).drop_last() =~= ls.take(prev as int));
        assert(ls.take(m as int).last() == ls[prev as int]);
        let a = league_scan(ls.take(prev as int));
        if k == m {
            lemma_scan_prefix(ls, prev, prev);
            lemma_step_prefix(a, prev, ls[prev as int]);
            let b = league_scan(ls.take(m as int));
            assert forall|d: int| 0 <= d < b.divisions.len() implies (#[trigger] b.divisions[d]).teams.len()
                <= b.divisions[d].teams.len() && b.divisions[d].teams.take(b.divisions[d].teams.len() as int)
                == b.divisions[d].teams by {
                assert(b.divisions[d].teams.take(b.divisions[d].teams.len() as int) =~= b.divisions[d].teams);
            }
        } else {
            lemma_scan_prefix(ls, k, prev);
            lemma_step_prefix(a, prev, ls[prev as int]);
            lemma_prefix_trans(league_scan(ls.take(k as int)), a, league_scan(ls.take(m as int)));
        }
    }
}

proof fn lemma_identity_position(n: nat, si: nat)
    requires
        si < n,
        n <= usize::MAX,
    ensures
        position_of_source(identity_sources(n), si) == Some(si),
    decreases si,
{
    let s = identity_sources(n);
    assert(s[0] == Some(0usize));
    if si > 0 {
        assert(s.drop_first() =~= Seq::new((n - 1) as nat, |i: int| Some((i + 1) as usize)));
        lemma_shifted_position((n - 1) as nat, (si - 1) as nat, 1);
    }
}

proof fn lemma_shifted_position(n: nat, si: nat, off: nat)
    requires
        si < n,
        off + n <= usize::MAX + 1,
    ensures
        position_of_source(Seq::new(n, |i: int| Some((i + off) as usize)), si + off) == Some(si),
    decreases si,
{
    let s = Seq::new(n, |i: int| Some((i + off) as usize));
    assert(s[0] == Some(off as usize));
    if si > 0 {
        assert(s.drop_first() =~= Seq::new((n - 1) as nat, |i: int| Some((i + (off + 1)) as usize)));
        lemma_shifted_position((n - 1) as nat, (si - 1) as nat, off + 1);
    }
}

proof fn lemma_same_replacement(d: DivisionModel, key: Seq<char>, n: nat)
    ensures
        property_replacement(d, d, key, n) == Ok::<Option<Seq<char>>, Seq<char>>(None),
    decreases n,
{
    if n > 0 {
        lemma_same_replacement(d, key, (n - 1) as nat);
    }
}

proof fn lemma_same_additions(d: DivisionModel, nl: Seq<char>, n: nat)
    ensures
        added_properties(d, d, nl, n) == Seq::<char>::empty(),
    decreases n,
{
    if n > 0 {
        lemma_same_additions(d, nl, (n - 1) as nat);
    }
}

proof fn lemma_plain_emit(out: Seq<char>, raw: Seq<char>, nl: Seq<char>)
    ensures
        emit(out, seq![], raw, None, seq![], nl) == out + raw,
{
    assert(out + seq![] =~= out);
}

proof fn lemma_nothing_appended(l: LeagueModel, o: LeagueModel, si: nat, nl: Seq<char>)
    requires
        l.divisions == o.divisions,
        l.division_sources == identity_sources(l.divisions.len()),
        si < l.divisions.len(),
        l.divisions.len() <= usize::MAX,
    ensures
        appended_text(l, o, si, nl) == Ok::<Seq<char>, Seq<char>>(seq![]),
{
    lemma_identity_position(l.divisions.len(), si);
    let ts = l.divisions[si as int].teams;
    assert(teams_after(ts, ts.len()) =~= seq![]);
    assert(lines_of(seq![], nl) =~= seq![]);
}

proof fn lemma_no_new_divisions(out: Seq<char>, l: LeagueModel, nl: Seq<char>, n: nat)
    requires
        n <= l.divisions.len(),
        l.division_sources == identity_sources(l.divisions.len()),
    ensures
        with_new_divisions(out, l, nl, n) == out,
    decreases n,
{
    if n > 0 {
        lemma_no_new_divisions(out, l, nl, (n - 1) as nat);
        assert(l.division_sources[n - 1] == Some((n - 1) as usize));
    }
}

/// What the writer has done after the first lines of a league read as it
/// is written: it has copied them, and it stands where the reader stands.
pub open spec fn render_follows(st: RenderState, p: LeagueScan, out: Seq<char>) -> bool {
    &&& st.output == out
    &&& st.division == p.current
    &&& st.next_division == p.divisions.len()
    &&& (p.current matches Some(d) ==> st.team_index == p.divisions[d as int].teams.len())
}

proof fn lemma_render_step_copies(
    l: LeagueModel,
    o: LeagueModel,
    nl: Seq<char>,
    st: RenderState,
    p: LeagueScan,
    f: LeagueScan,
    index: nat,
    raw: Seq<char>,
    out: Seq<char>,
)
    requires
        l.divisions == f.divisions,
        o.divisions == f.divisions,
        l.division_sources == identity_sources(f.divisions.len()),
        f.divisions.len() <= usize::MAX,
        scan_wf(p),
        render_follows(st, p, out),
        teams_prefix(league_step(p, index, line_body(raw)), f),
    ensures
        render_step(l, o, nl, st, raw) matches Ok(st2) && render_follows(
            st2,
            league_step(p, index, line_body(raw)),
            out + raw,
        ),
{
    let body = line_body(raw);
    let tr = trim(body);
    let p2 = league_step(p, index, body);
    lemma_step_prefix(p, index, body);
    lemma_plain_emit(out, raw, nl);
    if tr.len() > 0 {
        lemma_marks(tr[0]);
    }
    let opens = starts_with(tr, ':') || starts_with(tr, '*');
    if opens && st.division is Some {
        let si = st.division->0;
        assert(si < p.divisions.len());
        lemma_nothing_appended(l, o, si, nl);
    }
    if starts_with(tr, ':') {
        let si = st.next_division;
        assert(p2.divisions.len() == p.divisions.len() + 1);
        assert(si < f.divisions.len());
        lemma_identity_position(f.divisions.len(), si);
        lemma_same_additions(l.divisions[si as int], nl, 4);
        assert(p2.divisions[si as int].teams.len() == 0);
    } else if starts_with(tr, '*') {
    } else {
        match st.division {
            Some(si) => {
                assert(si < p.divisions.len());
                lemma_identity_position(f.divisions.len(), si);
                if starts_with(tr, '+') {
                    lemma_same_replacement(l.divisions[si as int], first_word(tr.drop_first()), 4);
                } else if tr.len() > 0 && !starts_with_any(tr, not_roster_chars()) {
                    let k = p.divisions[si as int].teams.len();
                    assert(p2.divisions[si as int].teams == p.divisions[si as int].teams.push(tr));
                    assert(p2.divisions[si as int].teams.len() == k + 1);
                    let ft = f.divisions[si as int].teams;
                    assert(ft.take((k + 1) as int) == p2.divisions[si as int].teams);
                    assert(ft.take((k + 1) as int)[k as int] == tr);
                    assert(ft[k as int] == tr);
                }
            },
            None => {},
        }
    }
}

proof fn lemma_render_fold_copies(l: LeagueModel, o: LeagueModel, nl: Seq<char>, src: Seq<char>, k: nat)
    requires
        l.divisions == league_scan(lines(src)).divisions,
        o.divisions == league_scan(lines(src)).divisions,
        l.division_sources == identity_sources(league_scan(lines(src)).divisions.len()),
        league_scan(lines(src)).divisions.len() <= usize::MAX,
        k <= pieces(src).len(),
    ensures
        render_fold(l, o, nl, seq![], pieces(src).take(k as int)) matches Ok(st) && render_follows(
            st,
            league_scan(lines(src).take(k as int)),
            flat(pieces(src).take(k as int)),
        ),
    decreases k,
{
    let ps = pieces(src);
    let ls = lines(src);
    assert(ls.len() == ps.len());
    if k == 0 {
        assert(ps.take(0) =~= seq![]);
        assert(ls.take(0) =~= seq![]);
    } else {
        let j = (k - 1) as nat;
        lemma_render_fold_copies(l, o, nl, src, j);
        assert(ps.take(k as int).drop_last() =~= ps.take(j as int));
        assert(ps.take(k as int).last() == ps[j as int]);
        assert(ls.take(k as int).drop_last() =~= ls.take(j as int));
        assert(ls.take(k as int).last() == ls[j as int]);
        assert(ls[j as int] == line_body(ps[j as int]));
        let p = league_scan(ls.take(j as int));
        lemma_scan_prefix(ls, j, j);
        lemma_scan_prefix(ls, k, ls.len());
        assert(ls.take(ls.len() as int) =~= ls);
        let st = render_fold(l, o, nl, seq![], ps.take(j as int))->Ok_0;
        lemma_render_step_copies(l, o, nl, st, p, league_scan(ls), j, ps[j as int], flat(ps.take(j as int)));
    }
}

/// The league read from the bytes `bytes` of the file at `path`.
pub open spec fn league_read(path: Seq<char>, bytes: Seq<u8>) -> LeagueModel {
    LeagueModel { source_bytes: bytes, ..parsed_league(path, decoded_text(bytes)) }
}

/// The text rendered for a league left as it was read is the text read
/// (for a league that passes the checks before writing).
proof fn lemma_unchanged_text(path: Seq<char>, bytes: Seq<u8>)
    requires
        save_check(league_read(path, bytes), parsed_league(path, decoded_text(bytes))) is Ok,
    ensures
        rendered_text(league_read(path, bytes)) == Ok::<Seq<char>, Seq<char>>(decoded_text(bytes)),
        parsed_league(path, decoded_text(bytes)).divisions == league_read(path, bytes).divisions,
{
    let src = decoded_text(bytes);
    let l = league_read(path, bytes);
    let o = parsed_league(path, src);
    let f = league_scan(lines(src));
    let nl = newline_of(src);
    let ps = pieces(src);
    assert(l.divisions.len() <= 12);
    lemma_render_fold_copies(l, o, nl, src, ps.len());
    assert(ps.take(ps.len() as int) =~= ps);
    assert(lines(src).take(lines(src).len() as int) =~= lines(src));
    assert(lines(src).len() == ps.len());
    let st = render_fold(l, o, nl, seq![], ps)->Ok_0;
    lemma_pieces_flat(src);
    assert(st.output == src);
    match st.division {
        Some(si) => {
            lemma_scan_prefix(lines(src), ps.len(), ps.len());
            lemma_nothing_appended(l, o, si, nl);
        },
        None => {},
    }
    assert(finish_original(l, o, nl, st) == Ok::<Seq<char>, Seq<char>>(src));
    lemma_no_new_divisions(src, l, nl, l.divisions.len());
    assert(header_text(l, nl) == Ok::<Seq<char>, Seq<char>>(seq![]));
}

/// Saving a league left as it was read writes back the very bytes read:
/// comments, cups, blank lines, line endings and byte order mark included
/// (for a UTF-8 file that passes the checks before writing and has no
/// second byte order mark).
pub proof fn law_unchanged_league_writes_back(path: Seq<char>, bytes: Seq<u8>)
    requires
        bytes.len() > 0,
        valid_utf8(bytes),
        !starts_with(
            decode_utf8(
                if has_bom(bytes) {
                    bytes.skip(3)
                } else {
                    bytes
                },
            ),
            '\u{feff}',
        ),
        save_check(league_read(path, bytes), parsed_league(path, decoded_text(bytes))) is Ok,
    ensures
        rendered_bytes(league_read(path, bytes)) == Ok::<Seq<u8>, Seq<char>>(bytes),
{
    lemma_unchanged_text(path, bytes);
    law_utf8_text_writes_back(bytes);
}

/// Saving a league left as it was read from a Windows-1252 file writes back
/// the very bytes read, given that encoding its decoded text gives back
/// those bytes without error (which `decode_text` states of the bytes it
/// decodes; see `read_league`).
proof fn lemma_unchanged_legacy_league(path: Seq<char>, bytes: Seq<u8>)
    requires
        !valid_utf8(bytes),
        windows_1252_encoded(decoded_text(bytes)) == (bytes, false),
        save_check(league_read(path, bytes), parsed_league(path, decoded_text(bytes))) is Ok,
    ensures
        rendered_bytes(league_read(path, bytes)) == Ok::<Seq<u8>, Seq<char>>(bytes),
{
    lemma_unchanged_text(path, bytes);
}

/// Reads a league file: its text decoded and parsed, its bytes kept (see
/// `league_read`). Such a league, saved as it was read, is written back byte
/// for byte, in UTF-8 (for a file with no second byte order mark) or in
/// Windows-1252 (for a file that starts with no byte order mark), whenever it
/// passes the checks before writing.
pub fn read_league(path: &str, bytes: Vec<u8>) -> (r: LeagueFile)
    ensures
        r@ == league_read(path@, bytes@),
        save_check(r@, parsed_league(path@, decoded_text(bytes@))) is Ok ==> {
            ||| bytes@.len() > 0 && valid_utf8(bytes@) && !starts_with(
                decode_utf8(
                    if has_bom(bytes@) {
                        bytes@.skip(3)
                    } else {
                        bytes@
                    },
                ),
                '\u{feff}',
            )
            ||| !valid_utf8(bytes@) && !sniffed_bom(bytes@)
        } ==> rendered_bytes(r@) == Ok::<Seq<u8>, Seq<char>>(bytes@),
{
    let text = decode_text(bytes.as_slice());
    let mut league = parse_league(path, text.as_str());
    league.source_bytes = bytes;
    proof {
        if save_check(league@, parsed_league(path@, decoded_text(league.source_bytes@))) is Ok {
            if valid_utf8(league.source_bytes@) {
                if league.source_bytes@.len() > 0 && !starts_with(
                    decode_utf8(
                        if has_bom(league.source_bytes@) {
                            league.source_bytes@.skip(3)
                        } else {
                            league.source_bytes@
                        },
                    ),
                    '\u{feff}',
                ) {
                    law_unchanged_league_writes_back(path@, league.source_bytes@);
                }
            } else if !sniffed_bom(league.source_bytes@) {
                lemma_unchanged_legacy_league(path@, league.source_bytes@);
            }
        }
    }
    league
}

/// Whether `out` is the line `raw` of the international file as written: the
/// line itself, or the line with the text between its leading and trailing
/// whitespace replaced by a club of `cs`, its line ending kept.
pub open spec fn line_kept_or_club(raw: Seq<char>, out: Seq<char>, cs: Seq<CountryModel>) -> bool {
    ||| out == raw
    ||| exists|ci: int, k: int|
        0 <= ci < cs.len() && 0 <= k < cs[ci].clubs.len() && out == leading_ws(line_body(raw)) + #[trigger] cs[ci].clubs[k]
            + trailing_ws(line_body(raw)) + line_ending(raw)
}

proof fn lemma_intl_fold_lines(cs: Seq<CountryModel>, ps: Seq<Seq<char>>) -> (outs: Seq<Seq<char>>)
    requires
        intl_fold(cs, ps) is Ok,
    ensures
        outs.len() == ps.len(),
        flat(outs) == intl_fold(cs, ps)->Ok_0.output,
        forall|i: int| 0 <= i < ps.len() ==> line_kept_or_club(ps[i], #[trigger] outs[i], cs),
        intl_fold(cs, ps)->Ok_0.current matches Some(ci) ==> ci < cs.len(),
        intl_fold(cs, ps)->Ok_0.positions.len() == cs.len(),
    decreases ps.len(),
{
    if ps.len() == 0 {
        seq![]
    } else {
        let prev = lemma_intl_fold_lines(cs, ps.drop_last());
        let st = intl_fold(cs, ps.drop_last())->Ok_0;
        let raw = ps.last();
        let next = intl_step(cs, st, raw)->Ok_0;
        let piece = next.output.subrange(st.output.len() as int, next.output.len() as int);
        let body = line_body(raw);
        let tr = trim(body);
        let cur = if starts_with(tr, '*') { None } else { st.current };
        if !"! AdditionalCountry"@.is_prefix_of(tr) && cur is Some && tr.len() > 0 && !starts_with_any(
            tr,
            crate::world_save::not_club_chars(),
        ) {
            let ci = cur->Some_0;
            let k = st.positions[ci as int];
            let club = cs[ci as int].clubs[k as int];
            assert(next.output == st.output + (leading_ws(body) + club + trailing_ws(body) + line_ending(raw)));
            assert(piece =~= leading_ws(body) + club + trailing_ws(body) + line_ending(raw));
            assert(line_kept_or_club(raw, piece, cs));
        } else {
            assert(next.output == st.output + raw);
            assert(piece =~= raw);
        }
        let outs = prev.push(piece);
        assert(outs.drop_last() =~= prev);
        assert(flat(outs) == flat(prev) + piece);
        assert(st.output + piece =~= next.output);
        assert forall|i: int| 0 <= i < ps.len() implies line_kept_or_club(ps[i], #[trigger] outs[i], cs) by {
            if i < ps.len() - 1 {
                assert(outs[i] == prev[i]);
                assert(ps[i] == ps.drop_last()[i]);
            }
        }
        outs
    }
}

/// Writing the international file keeps its lines: the text written is one
/// output per line of the file read, each the line itself or the line with
/// its text between leading and trailing whitespace replaced by a club.
pub proof fn law_international_keeps_lines(source_bytes: Seq<u8>, cs: Seq<CountryModel>, text: Seq<char>)
    requires
        international_text(source_bytes, cs) == Ok::<Seq<char>, Seq<char>>(text),
    ensures
        flat(pieces(decoded_text(source_bytes))) == decoded_text(source_bytes),
        exists|outs: Seq<Seq<char>>|
            #![trigger flat(outs)]
            outs.len() == pieces(decoded_text(source_bytes)).len() && flat(outs) == text && forall|i: int|
                0 <= i < outs.len() ==> line_kept_or_club(pieces(decoded_text(source_bytes))[i], #[trigger] outs[i], cs),
{
    let src = decoded_text(source_bytes);
    lemma_pieces_flat(src);
    let outs = lemma_intl_fold_lines(cs, pieces(src));
    assert(flat(outs) == text);
}

/// The first piece of a text is where the text starts.
proof fn lemma_first_piece(s: Seq<char>)
    requires
        s.len() > 0,
    ensures
        pieces(s).len() > 0,
        pieces(s)[0].len() > 0,
        pieces(s)[0][0] == s[0],
{
    lemma_piece_len_bounds(s);
    let n = piece_len(s);
    assert(pieces(s)[0] == s.take(n as int));
}

proof fn lemma_intl_fold_starts(cs: Seq<CountryModel>, ps: Seq<Seq<char>>)
    requires
        ps.len() > 0,
        intl_fold(cs, ps) is Ok,
    ensures
        intl_fold(cs, ps)->Ok_0.output.len() >= ps[0].len(),
        intl_fold(cs, ps)->Ok_0.output.take(ps[0].len() as int) == ps[0],
    decreases ps.len(),
{
    let st = intl_fold(cs, ps.drop_last())->Ok_0;
    let next = intl_step(cs, st, ps.last())->Ok_0;
    if ps.len() == 1 {
        assert(st.output == Seq::<char>::empty());
        assert(st.current is None);
        assert(next.output =~= ps[0]);
    } else {
        lemma_intl_fold_starts(cs, ps.drop_last());
        assert(ps.drop_last()[0] == ps[0]);
        lemma_intl_fold_lines(cs, ps.drop_last());
        let body = line_body(ps.last());
        let tr = trim(body);
        let cur = if starts_with(tr, '*') { None } else { st.current };
        if !"! AdditionalCountry"@.is_prefix_of(tr) && cur is Some && tr.len() > 0 && !starts_with_any(
            tr,
            crate::world_save::not_club_chars(),
        ) {
            let ci = cur->Some_0;
            let k = st.positions[ci as int];
            let club = cs[ci as int].clubs[k as int];
            assert(next.output == st.output + (leading_ws(body) + club + trailing_ws(body) + line_ending(ps.last())));
        } else {
            assert(next.output == st.output + ps.last());
        }
        assert(next.output.take(ps[0].len() as int) =~= st.output.take(ps[0].len() as int));
    }
}

/// The international text written for a UTF-8 file does not start with
/// U+FEFF: it starts with the first line of the text read.
pub proof fn lemma_international_text_start(source_bytes: Seq<u8>, cs: Seq<CountryModel>, text: Seq<char>)
    requires
        international_text(source_bytes, cs) == Ok::<Seq<char>, Seq<char>>(text),
        valid_utf8(source_bytes),
    ensures
        !starts_with(text, '\u{feff}'),
{
    let src = decoded_text(source_bytes);
    lemma_utf8_text_start(source_bytes);
    if src.len() > 0 {
        lemma_first_piece(src);
        lemma_intl_fold_starts(cs, pieces(src));
        let ps = pieces(src);
        assert(text.take(ps[0].len() as int)[0] == text[0]);
    } else {
        assert(pieces(src).len() == 0);
        assert(text == Seq::<char>::empty());
    }
}

/// Whether a text is non-empty and does not start with U+FEFF.
pub open spec fn starts_plain(t: Seq<char>) -> bool {
    t.len() > 0 && t[0] != '\u{feff}'
}

/// Whether the writer has written nothing and stands in an original division
/// that the league no longer has: a state from which writing cannot succeed.
pub open spec fn dead_start(l: LeagueModel, st: RenderState) -> bool {
    st.output.len() == 0 && (st.division matches Some(si) && position_of_source(l.division_sources, si) is None)
}

proof fn lemma_emit_extends(out: Seq<char>, prefix: Seq<char>, raw: Seq<char>, rep: Option<Seq<char>>, additions: Seq<char>, nl: Seq<char>)
    ensures
        emit(out, prefix, raw, rep, additions, nl) =~= out + emit(seq![], prefix, raw, rep, additions, nl),
{
}

proof fn lemma_emit_first(raw: Seq<char>, rep: Option<Seq<char>>, additions: Seq<char>, nl: Seq<char>)
    requires
        starts_plain(raw),
        rep matches Some(r) ==> starts_plain(r),
    ensures
        starts_plain(emit(seq![], seq![], raw, rep, additions, nl)),
{
    let body = line_body(raw);
    lemma_trim_start_suffix(body);
    let lw = leading_ws(body);
    assert(body.len() <= raw.len());
    if body.len() > 0 {
        assert(body[0] == raw[0]);
    }
    if lw.len() > 0 {
        assert(lw[0] == body[0]);
    }
    match rep {
        Some(r) => {
            let o2 = seq![] + seq![] + lw + r + trailing_ws(body) + line_ending(raw);
            if lw.len() > 0 {
                assert(o2[0] == lw[0]);
            } else {
                assert(o2[0] == r[0]);
            }
        },
        None => {
            assert((seq![] + seq![] + raw)[0] == raw[0]);
        },
    }
}

proof fn lemma_render_fold_start(l: LeagueModel, o: LeagueModel, nl: Seq<char>, ps: Seq<Seq<char>>)
    requires
        ps.len() > 0,
        starts_plain(ps[0]),
        render_fold(l, o, nl, seq![], ps) is Ok,
    ensures
        starts_plain(render_fold(l, o, nl, seq![], ps)->Ok_0.output) || dead_start(l, render_fold(l, o, nl, seq![], ps)->Ok_0),
    decreases ps.len(),
{
    let st = render_fold(l, o, nl, seq![], ps.drop_last())->Ok_0;
    let raw = ps.last();
    let body = line_body(raw);
    let tr = trim(body);
    let opens = starts_with(tr, ':') || starts_with(tr, '*');
    if ps.len() == 1 {
        assert(st.output == Seq::<char>::empty() && st.division is None);
        assert(raw == ps[0]);
        let next = render_step(l, o, nl, st, raw)->Ok_0;
        if starts_with(tr, ':') {
            let si = st.next_division;
            match position_of_source(l.division_sources, si) {
                None => {},
                Some(idx) => {
                    let changed = l.divisions[idx as int];
                    let previous = o.divisions[si as int];
                    let rep = if changed.name != previous.name {
                        Some(": "@ + changed.name)
                    } else {
                        None
                    };
                    if rep is Some {
                        reveal_strlit(": ");
                        assert((": "@ + changed.name)[0] == ':');
                    }
                    lemma_emit_first(raw, rep, added_properties(changed, previous, nl, 4), nl);
                    lemma_emit_extends(seq![], seq![], raw, rep, added_properties(changed, previous, nl, 4), nl);
                },
            }
        } else {
            lemma_emit_first(raw, None, seq![], nl);
            lemma_emit_extends(seq![], seq![], raw, None, seq![], nl);
        }
    } else {
        assert(ps.drop_last()[0] == ps[0]);
        lemma_render_fold_start(l, o, nl, ps.drop_last());
        let next = render_fold(l, o, nl, seq![], ps)->Ok_0;
        if dead_start(l, st) {
            let si = st.division->Some_0;
            if opens {
                assert(appended_text(l, o, si, nl) is Err);
            }
        } else {
            assert(starts_plain(st.output));
            let prefix = if opens && st.division is Some {
                appended_text(l, o, st.division->0, nl)->Ok_0
            } else {
                seq![]
            };
            assert forall|p: Seq<char>, rep: Option<Seq<char>>, add: Seq<char>| true implies #[trigger] emit(st.output, p, raw, rep, add, nl)[0]
                == st.output[0] by {
                lemma_emit_extends(st.output, p, raw, rep, add, nl);
            }
            assert(next.output.len() > 0 && next.output[0] == st.output[0]) by {
                if starts_with(tr, ':') {
                    let si = st.next_division;
                    match position_of_source(l.division_sources, si) {
                        None => {},
                        Some(idx) => {
                            let changed = l.divisions[idx as int];
                            let previous = o.divisions[si as int];
                            let rep = if changed.name != previous.name {
                                Some(": "@ + changed.name)
                            } else {
                                None
                            };
                            lemma_emit_extends(st.output, prefix, raw, rep, added_properties(changed, previous, nl, 4), nl);
                        },
                    }
                } else if starts_with(tr, '*') {
                    lemma_emit_extends(st.output, prefix, raw, None, seq![], nl);
                } else {
                    match st.division {
                        Some(si) => match position_of_source(l.division_sources, si) {
                            None => {},
                            Some(idx) => if starts_with(tr, '+') {
                                let rep = property_replacement(l.divisions[idx as int], o.divisions[si as int], first_word(tr.drop_first()), 4)->Ok_0;
                                lemma_emit_extends(st.output, prefix, raw, rep, seq![], nl);
                            } else if tr.len() > 0 && !starts_with_any(tr, not_roster_chars()) {
                                let teams = l.divisions[idx as int].teams;
                                let team = teams[st.team_index as int];
                                let rep = if team != tr {
                                    Some(team)
                                } else {
                                    None
                                };
                                lemma_emit_extends(st.output, prefix, raw, rep, seq![], nl);
                            } else {
                                lemma_emit_extends(st.output, prefix, raw, None, seq![], nl);
                            },
                        },
                        None => {
                            lemma_emit_extends(st.output, prefix, raw, None, seq![], nl);
                        },
                    }
                }
            }
        }
    }
}

proof fn lemma_new_divisions_start(out: Seq<char>, l: LeagueModel, nl: Seq<char>, n: nat)
    requires
        n <= l.divisions.len(),
        n <= l.division_sources.len(),
        out.len() == 0 || starts_plain(out),
    ensures
        with_new_divisions(out, l, nl, n).len() == 0 || starts_plain(with_new_divisions(out, l, nl, n)),
        with_new_divisions(out, l, nl, n).len() >= out.len(),
        starts_plain(out) ==> with_new_divisions(out, l, nl, n)[0] == out[0],
    decreases n,
{
    if n > 0 {
        lemma_new_divisions_start(out, l, nl, (n - 1) as nat);
        let before = with_new_divisions(out, l, nl, (n - 1) as nat);
        if l.division_sources[n - 1] is None {
            let more = new_division_text(l.divisions[n - 1], nl);
            reveal_strlit(": ");
            assert(more[0] == ':');
            if before.len() > 0 {
                if before.last() != '\n' {
                    assert((before + nl + more)[0] == before[0]);
                } else {
                    assert((before + more)[0] == before[0]);
                }
            } else {
                assert((before + more)[0] == more[0]);
            }
        }
    }
}

/// The text rendered for a league read from a UTF-8 file does not start with
/// U+FEFF.
pub proof fn lemma_rendered_text_start(l: LeagueModel, text: Seq<char>)
    requires
        rendered_text(l) == Ok::<Seq<char>, Seq<char>>(text),
        l.source_bytes.len() > 0,
        valid_utf8(l.source_bytes),
    ensures
        !starts_with(text, '\u{feff}'),
{
    let src = decoded_text(l.source_bytes);
    let o = parsed_league(l.path, src);
    let nl = newline_of(src);
    let ps = pieces(src);
    lemma_utf8_text_start(l.source_bytes);
    assert(header_text(l, nl) == Ok::<Seq<char>, Seq<char>>(seq![]));
    let st = render_fold(l, o, nl, seq![], ps)->Ok_0;
    let out = finish_original(l, o, nl, st)->Ok_0;
    if ps.len() > 0 {
        lemma_first_piece(src);
        lemma_render_fold_start(l, o, nl, ps);
        if dead_start(l, st) {
            assert(appended_text(l, o, st.division->Some_0, nl) is Err);
        }
        assert(starts_plain(st.output));
        match st.division {
            None => {},
            Some(si) => {
                let a = appended_text(l, o, si, nl)->Ok_0;
                if a.len() > 0 {
                    if st.output.last() != '\n' {
                        assert((st.output + nl + a)[0] == st.output[0]);
                    } else {
                        assert((st.output + a)[0] == st.output[0]);
                    }
                }
            },
        }
        assert(starts_plain(out));
    } else {
        assert(st.output == Seq::<char>::empty());
        assert(out.len() == 0);
    }
    assert(save_check(l, o) is Ok);
    lemma_new_divisions_start(out, l, nl, l.divisions.len());
}

} // verus!
