//! Saving a world: the changes to write (league files and team files; a
//! save does not write the international file), the text of the
//! international file with its club lines brought in step, and the encoding
//! of a rewritten file.
use vstd::prelude::*;
use crate::world_load::{copy_bytes};
use crate::world_edit::{league_path, league_path_of, referenced, sync_outcome};
use vstd::utf8::valid_utf8;
use crate::league_save::{render, rendered_bytes, same_divisions, same_strings};
use crate::encoding::{decode_text, decoded_text, has_bom, law_utf8_reads_back, lemma_bom_decodes, utf8_bom, utf8_bytes_like, utf8_like, utf8_text, windows_1252_encode, windows_1252_encoded};
use crate::leagues::{CountryModel, InternationalCountry, LeagueFile, LeagueModel, World, WorldModel, country_views, league_views, literal, parse_international_countries, parse_league, parsed_countries, parsed_league};
use crate::text::{body_len, char_views, copy_string, eq_ignore_case, first_in, first_is, from_chars, leading_ws, leading_ws_len, line_body, line_ending, pieces, push_all, push_str, same_chars, same_string, split_pieces, starts_with, starts_with_any, string_chars, string_views, strings_eq_ignore_case, sub_chars, to_chars, trailing_ws, trim, trimmed, trimmed_end_len};

verus! {

/// A change of one file: its path, the bytes it must hold before (none for
/// a new file) and the bytes it gets (none to delete it).
#[derive(Debug)]
pub struct FileChange {
    path: String,
    before: Option<Vec<u8>>,
    after: Option<Vec<u8>>,
}

/// What a file change holds, as plain values.
pub struct FileChangeModel {
    pub path: Seq<char>,
    pub before: Option<Seq<u8>>,
    pub after: Option<Seq<u8>>,
}

/// The plain-value form of optional bytes.
pub open spec fn bytes_view(b: Option<Vec<u8>>) -> Option<Seq<u8>> {
    match b {
        Some(v) => Some(v@),
        None => None,
    }
}

impl View for FileChange {
    type V = FileChangeModel;

    closed spec fn view(&self) -> FileChangeModel {
        FileChangeModel { path: self.path@, before: bytes_view(self.before), after: bytes_view(self.after) }
    }
}

impl FileChange {
    /// A file that gets `after`, holding `before` until then.
    pub fn replacement(path: String, before: Option<Vec<u8>>, after: Vec<u8>) -> (r: FileChange)
        ensures
            r@ == (FileChangeModel { path: path@, before: bytes_view(before), after: Some(after@) }),
    {
        FileChange { path, before, after: Some(after) }
    }

    /// A file that holds `before` and is deleted.
    pub fn deletion(path: String, before: Vec<u8>) -> (r: FileChange)
        ensures
            r@ == (FileChangeModel { path: path@, before: Some(before@), after: None }),
    {
        FileChange { path, before: Some(before), after: None }
    }

    /// The path of the file.
    pub fn path(&self) -> (r: &String)
        ensures
            r@ == self@.path,
    {
        &self.path
    }

    /// The bytes the file must hold before the change.
    pub fn before(&self) -> (r: &Option<Vec<u8>>)
        ensures
            bytes_view(*r) == self@.before,
    {
        &self.before
    }

    /// The bytes the file gets, or none when it is deleted.
    pub fn after(&self) -> (r: &Option<Vec<u8>>)
        ensures
            bytes_view(*r) == self@.after,
    {
        &self.after
    }
}

/// The bytes of a rewritten text in the encoding of `source`: UTF-8
/// (keeping a byte order mark) when `source` is UTF-8, else Windows-1252.
pub open spec fn encoded_like(source: Seq<u8>, text: Seq<char>) -> Result<Seq<u8>, Seq<char>> {
    if valid_utf8(source) {
        Ok(utf8_like(source, text))
    } else {
        let (bytes, errors) = windows_1252_encoded(text);
        if errors {
            Err("Un nome internazionale non è rappresentabile in Windows-1252."@)
        } else {
            Ok(bytes)
        }
    }
}

/// Encodes `text` like `source` (see `encoded_like`).
pub fn encode_like(source: &[u8], text: String) -> (r: Result<Vec<u8>, String>)
    ensures
        match r {
            Ok(b) => encoded_like(source@, text@) == Ok::<Seq<u8>, Seq<char>>(b@),
            Err(e) => encoded_like(source@, text@) == Err::<Seq<u8>, Seq<char>>(e@),
        },
{
    if utf8_text(source).is_some() {
        return Ok(utf8_bytes_like(source, text.as_str()));
    }
    let (bytes, errors) = windows_1252_encode(text.as_str());
    if errors {
        return Err(literal("Un nome internazionale non è rappresentabile in Windows-1252."));
    }
    Ok(bytes)
}

// ---------------------------------------------------------------------------
// The international file
// ---------------------------------------------------------------------------

/// Where the writer of the international file is.
pub struct IntlState {
    pub output: Seq<char>,
    pub current: Option<nat>,
    pub next_country: nat,
    pub positions: Seq<nat>,
}

/// The characters that end the club lines of a country block.
pub open spec fn not_club_chars() -> Seq<char> {
    seq!['!', '+', '#', ';', '$', '@', '=']
}

/// The writer's state after the original line `raw`: a country header
/// starts the next country block, a cup ends it, and each club line gets
/// the next club of its country.
pub open spec fn intl_step(cs: Seq<CountryModel>, st: IntlState, raw: Seq<char>) -> Result<IntlState, Seq<char>> {
    let body = line_body(raw);
    let tr = trim(body);
    if "! AdditionalCountry"@.is_prefix_of(tr) {
        Ok(IntlState {
            output: st.output + raw,
            current: if st.next_country < cs.len() {
                Some(st.next_country)
            } else {
                None
            },
            next_country: st.next_country + 1,
            ..st
        })
    } else {
        let cur = if starts_with(tr, '*') {
            None
        } else {
            st.current
        };
        match cur {
            Some(ci) => if tr.len() > 0 && !starts_with_any(tr, not_club_chars()) {
                let k = st.positions[ci as int];
                if k >= cs[ci as int].clubs.len() {
                    Err("Elenco club internazionale non coerente."@)
                } else {
                    Ok(IntlState {
                        output: st.output + leading_ws(body) + cs[ci as int].clubs[k as int] + trailing_ws(body)
                            + line_ending(raw),
                        current: cur,
                        positions: st.positions.update(ci as int, k + 1),
                        ..st
                    })
                }
            } else {
                Ok(IntlState { output: st.output + raw, current: cur, ..st })
            },
            None => Ok(IntlState { output: st.output + raw, current: cur, ..st }),
        }
    }
}

/// The writer's state after the given original lines.
pub open spec fn intl_fold(cs: Seq<CountryModel>, ps: Seq<Seq<char>>) -> Result<IntlState, Seq<char>>
    decreases ps.len(),
{
    if ps.len() == 0 {
        Ok(IntlState { output: seq![], current: None, next_country: 0, positions: Seq::new(cs.len(), |i: int| 0nat) })
    } else {
        match intl_fold(cs, ps.drop_last()) {
            Err(e) => Err(e),
            Ok(st) => intl_step(cs, st, ps.last()),
        }
    }
}

/// Whether the country blocks of the file and `cs` have the same names (up
/// to ASCII case) and the same numbers of clubs.
pub open spec fn same_structure(original: Seq<CountryModel>, cs: Seq<CountryModel>) -> bool {
    original.len() == cs.len() && forall|i: int| 0 <= i < cs.len() ==> #[trigger] same_shape(original[i], cs[i])
}

/// Whether two country blocks have the same name (up to ASCII case) and the
/// same number of clubs.
pub open spec fn same_shape(a: CountryModel, b: CountryModel) -> bool {
    eq_ignore_case(a.name, b.name) && a.clubs.len() == b.clubs.len()
}

/// The international file with the club lines of its country blocks
/// replaced by the clubs of `cs`, or why it cannot be written.
pub open spec fn international_text(source_bytes: Seq<u8>, cs: Seq<CountryModel>) -> Result<Seq<char>, Seq<char>> {
    let source = decoded_text(source_bytes);
    let (original, warnings) = parsed_countries(source);
    if warnings.len() > 0 || original.len() != cs.len() {
        Err("Il file internazionale è cambiato o non può essere sincronizzato in sicurezza."@)
    } else if !same_structure(original, cs) {
        Err("La struttura dei paesi internazionali non può essere modificata da questa schermata."@)
    } else {
        match intl_fold(cs, pieces(source)) {
            Err(e) => Err(e),
            Ok(st) => if exists|i: int| 0 <= i < cs.len() && #[trigger] st.positions[i] != cs[i].clubs.len() {
                Err("Non tutte le righe-club internazionali sono state trovate."@)
            } else {
                let (check, warnings2) = parsed_countries(st.output);
                if warnings2.len() > 0 || check != cs {
                    Err("Verifica del file internazionale generato fallita."@)
                } else {
                    Ok(st.output)
                }
            },
        }
    }
}

/// The bytes of the international file after a synchronisation.
pub open spec fn international_bytes(source_bytes: Seq<u8>, cs: Seq<CountryModel>) -> Result<Seq<u8>, Seq<char>> {
    match international_text(source_bytes, cs) {
        Err(e) => Err(e),
        Ok(text) => encoded_like(source_bytes, text),
    }
}

struct IntlWriter {
    output: Vec<char>,
    current: Option<usize>,
    next_country: usize,
    positions: Vec<usize>,
}

impl View for IntlWriter {
    type V = IntlState;

    closed spec fn view(&self) -> IntlState {
        IntlState {
            output: self.output@,
            current: match self.current {
                Some(c) => Some(c as nat),
                None => None,
            },
            next_country: self.next_country as nat,
            positions: self.positions@.map_values(|p: usize| p as nat),
        }
    }
}

/// Whether `v` starts with the text `prefix`.
fn has_prefix(v: &[char], prefix: &str) -> (r: bool)
    ensures
        r == prefix@.is_prefix_of(v@),
{
    let p = to_chars(prefix);
    if p.len() > v.len() {
        return false;
    }
    let mut i: usize = 0;
    while i < p.len()
        invariant
            i <= p@.len() <= v@.len(),
            p@ == prefix@,
            forall|j: int| 0 <= j < i ==> #[trigger] p@[j] == v@[j],
        decreases p@.len() - i,
    {
        if p[i] != v[i] {
            assert(v@.subrange(0, p@.len() as int)[i as int] == v@[i as int]);
            return false;
        }
        i += 1;
    }
    assert(p@ =~= v@.subrange(0, p@.len() as int));
    true
}

impl IntlWriter {
    spec fn wf(&self, n: nat) -> bool {
        &&& self.positions@.len() == n
        &&& self.current matches Some(c) ==> c < n
    }

    fn step(&mut self, countries: &Vec<InternationalCountry>, raw: &[char]) -> (r: Result<(), String>)
        requires
            old(self).wf(countries@.len() as nat),
            old(self).next_country < usize::MAX,
        ensures
            final(self).wf(countries@.len() as nat),
            match r {
                Ok(()) => intl_step(country_views(countries@), old(self)@, raw@) == Ok::<IntlState, Seq<char>>(final(self)@),
                Err(e) => intl_step(country_views(countries@), old(self)@, raw@) == Err::<IntlState, Seq<char>>(e@),
            },
            r is Ok ==> final(self).next_country <= old(self).next_country + 1,
    {
        let ghost cv = country_views(countries@);
        let n = body_len(raw);
        let body = sub_chars(raw, 0, n);
        assert(body@ =~= line_body(raw@));
        let tr = trimmed(body.as_slice());
        if has_prefix(tr.as_slice(), "! AdditionalCountry") {
            push_all(&mut self.output, raw);
            self.current = if self.next_country < countries.len() {
                Some(self.next_country)
            } else {
                None
            };
            self.next_country = self.next_country + 1;
            return Ok(());
        }
        if first_is(tr.as_slice(), '*') {
            self.current = None;
        }
        assert(not_club_chars() =~= ['!', '+', '#', ';', '$', '@', '=']@);
        match self.current {
            Some(ci) => {
                if tr.len() > 0 && !first_in(tr.as_slice(), &['!', '+', '#', ';', '$', '@', '=']) {
                    let k = self.positions[ci];
                    assert(cv[ci as int] == countries@[ci as int]@);
                    if k >= countries[ci].clubs.len() {
                        return Err(literal("Elenco club internazionale non coerente."));
                    }
                    let club = string_chars(&countries[ci].clubs[k]);
                    assert(cv[ci as int].clubs[k as int] == club@);
                    let lead_len = leading_ws_len(body.as_slice());
                    let e = trimmed_end_len(body.as_slice());
                    let lead = sub_chars(body.as_slice(), 0, lead_len);
                    let trail = sub_chars(body.as_slice(), e, body.len());
                    let ending = sub_chars(raw, n, raw.len());
                    assert(lead@ =~= leading_ws(body@));
                    assert(trail@ =~= trailing_ws(body@));
                    push_all(&mut self.output, lead.as_slice());
                    push_all(&mut self.output, club.as_slice());
                    push_all(&mut self.output, trail.as_slice());
                    push_all(&mut self.output, ending.as_slice());
                    let ghost before = self.positions@;
                    self.positions.set(ci, k + 1);
                    assert(self.positions@.map_values(|p: usize| p as nat) =~= before.map_values(|p: usize| p as nat).update(
                        ci as int,
                        (k + 1) as nat,
                    ));
                    return Ok(());
                }
                push_all(&mut self.output, raw);
                Ok(())
            },
            None => {
                push_all(&mut self.output, raw);
                Ok(())
            },
        }
    }
}

proof fn lemma_intl_fold_stays(cs: Seq<CountryModel>, ps: Seq<Seq<char>>, a: int)
    requires
        0 <= a <= ps.len(),
        intl_fold(cs, ps.take(a)) is Err,
    ensures
        intl_fold(cs, ps) == intl_fold(cs, ps.take(a)),
    decreases ps.len() - a,
{
    if a < ps.len() {
        assert(ps.drop_last().take(a) =~= ps.take(a));
        lemma_intl_fold_stays(cs, ps.drop_last(), a);
    } else {
        assert(ps.take(a) =~= ps);
    }
}

/// Whether two country sequences hold the same values.
pub(crate) fn same_countries(a: &Vec<InternationalCountry>, b: &Vec<InternationalCountry>) -> (r: bool)
    ensures
        r == (country_views(a@) == country_views(b@)),
{
    if a.len() != b.len() {
        assert(country_views(a@).len() != country_views(b@).len());
        return false;
    }
    let mut i: usize = 0;
    while i < a.len()
        invariant
            i <= a@.len() == b@.len(),
            forall|j: int| 0 <= j < i ==> #[trigger] country_views(a@)[j] == country_views(b@)[j],
        decreases a@.len() - i,
    {
        let x = &a[i];
        let y = &b[i];
        let same = same_string(&x.name, &y.name) && same_strings(&x.name_files, &y.name_files)
            && x.reputation == y.reputation && same_strings(&x.clubs, &y.clubs);
        if !same {
            assert(country_views(a@)[i as int] != country_views(b@)[i as int]);
            return false;
        }
        i += 1;
    }
    assert(country_views(a@) =~= country_views(b@));
    true
}

/// Replaces only the club lines of the country blocks of the international
/// file with the clubs of `countries` (see `international_bytes`).
pub fn render_international(source_bytes: &[u8], countries: &Vec<InternationalCountry>) -> (r: Result<Vec<u8>, String>)
    ensures
        match r {
            Ok(b) => international_bytes(source_bytes@, country_views(countries@)) == Ok::<Seq<u8>, Seq<char>>(b@),
            Err(e) => international_bytes(source_bytes@, country_views(countries@)) == Err::<Seq<u8>, Seq<char>>(e@),
        },
{
    let ghost cv = country_views(countries@);
    let source = decode_text(source_bytes);
    let (original, warnings) = parse_international_countries(source.as_str());
    let ghost ov = country_views(original@);
    if warnings.len() > 0 || original.len() != countries.len() {
        return Err(literal("Il file internazionale è cambiato o non può essere sincronizzato in sicurezza."));
    }
    let mut i: usize = 0;
    while i < countries.len()
        invariant
            i <= countries@.len() == original@.len(),
            cv == country_views(countries@),
            ov == country_views(original@),
            cv.len() == countries@.len(),
            ov.len() == original@.len(),
            forall|j: int| 0 <= j < i ==> #[trigger] same_shape(ov[j], cv[j]),
            source@ == decoded_text(source_bytes@),
            parsed_countries(source@) == (ov, string_views(warnings@)),
            warnings@.len() == 0,
        decreases countries@.len() - i,
    {
        assert(ov[i as int] == original@[i as int]@);
        assert(cv[i as int] == countries@[i as int]@);
        if !strings_eq_ignore_case(&original[i].name, &countries[i].name)
            || original[i].clubs.len() != countries[i].clubs.len() {
            assert(!same_shape(ov[i as int], cv[i as int]));
            return Err(literal("La struttura dei paesi internazionali non può essere modificata da questa schermata."));
        }
        i += 1;
    }
    assert(same_structure(ov, cv));
    let src = to_chars(source.as_str());
    let ps = split_pieces(src.as_slice());
    let ghost pv = char_views(ps@);
    let mut positions: Vec<usize> = Vec::new();
    let mut k: usize = 0;
    while k < countries.len()
        invariant
            k <= countries@.len(),
            positions@.len() == k,
            forall|j: int| 0 <= j < k ==> #[trigger] positions@[j] == 0,
        decreases countries@.len() - k,
    {
        positions.push(0);
        k += 1;
    }
    let mut writer = IntlWriter { output: Vec::new(), current: None, next_country: 0, positions };
    assert(writer@.positions =~= Seq::new(cv.len(), |i: int| 0nat));
    assert(writer@.output =~= seq![]);
    assert(pv.take(0) =~= seq![]);
    let mut j: usize = 0;
    while j < ps.len()
        invariant
            j <= ps@.len(),
            pv == char_views(ps@),
            pv == pieces(src@),
            cv == country_views(countries@),
            writer.wf(countries@.len() as nat),
            writer.next_country <= j,
            intl_fold(cv, pv.take(j as int)) == Ok::<IntlState, Seq<char>>(writer@),
            src@ == decoded_text(source_bytes@),
            parsed_countries(src@) == (ov, string_views(warnings@)),
            warnings@.len() == 0,
            ov.len() == cv.len(),
            same_structure(ov, cv),
        decreases ps@.len() - j,
    {
        assert(pv[j as int] == ps@[j as int]@);
        assert(pv.take(j + 1).drop_last() =~= pv.take(j as int));
        let ghost before = writer@;
        match writer.step(countries, ps[j].as_slice()) {
            Err(e) => {
                proof {
                    assert(intl_fold(cv, pv.take(j + 1)) == Err::<IntlState, Seq<char>>(e@));
                    lemma_intl_fold_stays(cv, pv, j + 1);
                    assert(international_text(source_bytes@, cv) == Err::<Seq<char>, Seq<char>>(e@));
                }
                return Err(e);
            },
            Ok(()) => {},
        }
        j += 1;
    }
    assert(pv.take(j as int) =~= pv);
    let mut c: usize = 0;
    while c < countries.len()
        invariant
            c <= countries@.len(),
            cv == country_views(countries@),
            writer.wf(countries@.len() as nat),
            forall|x: int| 0 <= x < c ==> #[trigger] writer@.positions[x] == cv[x].clubs.len(),
            intl_fold(cv, pieces(src@)) == Ok::<IntlState, Seq<char>>(writer@),
            src@ == decoded_text(source_bytes@),
            parsed_countries(src@) == (ov, string_views(warnings@)),
            warnings@.len() == 0,
            ov.len() == cv.len(),
            same_structure(ov, cv),
        decreases countries@.len() - c,
    {
        assert(cv[c as int] == countries@[c as int]@);
        if writer.positions[c] != countries[c].clubs.len() {
            assert(writer@.positions[c as int] == writer.positions@[c as int] as nat);
            assert(writer@.positions[c as int] != cv[c as int].clubs.len());
            assert(international_text(source_bytes@, cv) == Err::<Seq<char>, Seq<char>>("Non tutte le righe-club internazionali sono state trovate."@));
            return Err(literal("Non tutte le righe-club internazionali sono state trovate."));
        }
        c += 1;
    }
    let text = from_chars(writer.output.as_slice());
    let (check, warnings2) = parse_international_countries(text.as_str());
    if warnings2.len() > 0 || !same_countries(&check, countries) {
        return Err(literal("Verifica del file internazionale generato fallita."));
    }
    encode_like(source_bytes, text)
}

// ---------------------------------------------------------------------------
// The changes of a save
// ---------------------------------------------------------------------------

/// A file as found on disk just before saving: whether it exists and what
/// reading it gave.
pub struct DiskFile {
    pub path: String,
    pub exists: bool,
    pub contents: Result<Vec<u8>, String>,
}

/// What a disk file holds, as plain values.
pub struct DiskFileModel {
    pub path: Seq<char>,
    pub exists: bool,
    pub contents: Result<Seq<u8>, Seq<char>>,
}

impl View for DiskFile {
    type V = DiskFileModel;

    open spec fn view(&self) -> DiskFileModel {
        DiskFileModel {
            path: self.path@,
            exists: self.exists,
            contents: match self.contents {
                Ok(b) => Ok(b@),
                Err(e) => Err(e@),
            },
        }
    }
}

/// The models of a sequence of disk files.
pub open spec fn disk_views(v: Seq<DiskFile>) -> Seq<DiskFileModel> {
    v.map_values(|d: DiskFile| d@)
}

/// The first disk file with the path `path`.
pub open spec fn disk_file(disk: Seq<DiskFileModel>, path: Seq<char>) -> Option<DiskFileModel>
    decreases disk.len(),
{
    if disk.len() == 0 {
        None
    } else if disk[0].path == path {
        Some(disk[0])
    } else {
        disk_file(disk.drop_first(), path)
    }
}

/// The first league with the path `path`.
pub open spec fn league_at(ls: Seq<LeagueModel>, path: Seq<char>) -> Option<LeagueModel>
    decreases ls.len(),
{
    if ls.len() == 0 {
        None
    } else if ls[0].path == path {
        Some(ls[0])
    } else {
        league_at(ls.drop_first(), path)
    }
}

/// Whether a league differs from its saved version (or has none).
pub open spec fn league_changed(l: LeagueModel, old: Option<LeagueModel>) -> bool {
    match old {
        None => true,
        Some(o) => o.divisions != l.divisions || o.division_sources != l.division_sources,
    }
}

/// The message for a file that changed on disk since it was read.
pub open spec fn changed_on_disk(path: Seq<char>) -> Seq<char> {
    path + " è cambiato esternamente. Riapri il mondo prima di salvare."@
}

/// The message for a file whose state on disk was not given.
pub open spec fn not_read(path: Seq<char>) -> Seq<char> {
    path + ": stato su disco non disponibile."@
}

/// Whether the file at `path` still holds `bytes` on disk, or why not.
pub open spec fn still_holds(disk: Seq<DiskFileModel>, path: Seq<char>, bytes: Seq<u8>, changed: Seq<char>) -> Result<(), Seq<char>> {
    match disk_file(disk, path) {
        None => Err(not_read(path)),
        Some(d) => match d.contents {
            Err(e) => Err(e),
            Ok(b) => if b != bytes {
                Err(changed)
            } else {
                Ok(())
            },
        },
    }
}

/// The changes after league `l` of the world: a changed league is written
/// again, once its file is checked to be as it was read.
pub open spec fn league_change_step(saved: Seq<LeagueModel>, disk: Seq<DiskFileModel>, acc: Result<Seq<FileChangeModel>, Seq<char>>, l: LeagueModel) -> Result<Seq<FileChangeModel>, Seq<char>> {
    match acc {
        Err(e) => Err(e),
        Ok(cs) => {
            let old = league_at(saved, l.path);
            if !league_changed(l, old) {
                Ok(cs)
            } else {
                let check = match old {
                    Some(o) => still_holds(disk, l.path, o.source_bytes, changed_on_disk(l.path)),
                    None => Ok(()),
                };
                match check {
                    Err(e) => Err(e),
                    Ok(()) => match rendered_bytes(l) {
                        Err(e) => Err(e),
                        Ok(after) => Ok(cs.push(FileChangeModel {
                            path: l.path,
                            before: match old {
                                Some(o) => Some(o.source_bytes),
                                None => None,
                            },
                            after: Some(after),
                        })),
                    },
                }
            }
        },
    }
}

/// The changes for the first `n` leagues of the world.
pub open spec fn league_changes(ls: Seq<LeagueModel>, saved: Seq<LeagueModel>, disk: Seq<DiskFileModel>, n: nat) -> Result<Seq<FileChangeModel>, Seq<char>>
    decreases n,
{
    if n == 0 {
        Ok(seq![])
    } else {
        league_change_step(saved, disk, league_changes(ls, saved, disk, (n - 1) as nat), ls[n - 1])
    }
}

/// Whether some league of `ls` has the path `path`.
pub open spec fn has_league_at(ls: Seq<LeagueModel>, path: Seq<char>) -> bool {
    exists|i: int| 0 <= i < ls.len() && #[trigger] ls[i].path == path
}

/// The changes after saved league `o`: a league gone from the world has its
/// file deleted, once checked to be as it was read.
pub open spec fn removal_step(ls: Seq<LeagueModel>, disk: Seq<DiskFileModel>, acc: Result<Seq<FileChangeModel>, Seq<char>>, o: LeagueModel) -> Result<Seq<FileChangeModel>, Seq<char>> {
    match acc {
        Err(e) => Err(e),
        Ok(cs) => if has_league_at(ls, o.path) {
            Ok(cs)
        } else {
            match still_holds(disk, o.path, o.source_bytes, changed_on_disk(o.path)) {
                Err(e) => Err(e),
                Ok(()) => Ok(cs.push(FileChangeModel { path: o.path, before: Some(o.source_bytes), after: None })),
            }
        },
    }
}

/// The changes after the first `n` saved leagues.
pub open spec fn removal_changes(ls: Seq<LeagueModel>, saved: Seq<LeagueModel>, disk: Seq<DiskFileModel>, start: Result<Seq<FileChangeModel>, Seq<char>>, n: nat) -> Result<Seq<FileChangeModel>, Seq<char>>
    decreases n,
{
    if n == 0 {
        start
    } else {
        removal_step(ls, disk, removal_changes(ls, saved, disk, start, (n - 1) as nat), saved[n - 1])
    }
}

/// The changes after deleted club `club`: the team file of a club that
/// nothing names any more is deleted, when it exists.
pub open spec fn team_deletion_step(w: WorldModel, teams: Seq<char>, disk: Seq<DiskFileModel>, acc: Result<Seq<FileChangeModel>, Seq<char>>, club: Seq<char>) -> Result<Seq<FileChangeModel>, Seq<char>> {
    match acc {
        Err(e) => Err(e),
        Ok(cs) => if referenced(w, club) {
            Ok(cs)
        } else {
            let path = league_path_of(teams, club);
            match disk_file(disk, path) {
                None => Err(not_read(path)),
                Some(d) => if !d.exists {
                    Ok(cs)
                } else {
                    match d.contents {
                        Err(e) => Err(e),
                        Ok(b) => Ok(cs.push(FileChangeModel { path, before: Some(b), after: None })),
                    }
                },
            }
        },
    }
}

/// The changes after the first `n` deleted clubs.
pub open spec fn team_deletions(w: WorldModel, teams: Seq<char>, disk: Seq<DiskFileModel>, clubs: Seq<Seq<char>>, start: Result<Seq<FileChangeModel>, Seq<char>>, n: nat) -> Result<Seq<FileChangeModel>, Seq<char>>
    decreases n,
{
    if n == 0 {
        start
    } else {
        team_deletion_step(w, teams, disk, team_deletions(w, teams, disk, clubs, start, (n - 1) as nat), clubs[n - 1])
    }
}

/// The file changes that save `w` over its saved version `saved`, given
/// the Team folder and the files as they are on disk: changed leagues,
/// removed leagues and the team files of deleted clubs; or why the save
/// cannot go ahead. The international file is not written by a save.
pub open spec fn planned_changes(w: WorldModel, saved: WorldModel, deleted: Seq<Seq<char>>, teams: Option<Seq<char>>, disk: Seq<DiskFileModel>) -> Result<Seq<FileChangeModel>, Seq<char>> {
    let a = league_changes(w.leagues, saved.leagues, disk, w.leagues.len());
    let b = removal_changes(w.leagues, saved.leagues, disk, a, saved.leagues.len());
    match b {
        Err(e) => Err(e),
        Ok(_) => match teams {
            None => Err("Cartella Data non disponibile."@),
            Some(dir) => team_deletions(w, dir, disk, deleted, b, deleted.len()),
        },
    }
}

/// The models of a sequence of file changes.
pub open spec fn change_views(v: Seq<FileChange>) -> Seq<FileChangeModel> {
    v.map_values(|c: FileChange| c@)
}

/// The paths whose state on disk a save looks at: the league files of the
/// world and of its saved version, and the team files of the deleted clubs.
pub open spec fn paths_to_check(w: WorldModel, saved: WorldModel, deleted: Seq<Seq<char>>, teams: Option<Seq<char>>) -> Seq<Seq<char>> {
    w.leagues.map_values(|l: LeagueModel| l.path) + saved.leagues.map_values(|l: LeagueModel| l.path) + match teams {
        Some(dir) => deleted.map_values(|c: Seq<char>| league_path_of(dir, c)),
        None => seq![],
    }
}

fn lookup_disk<'a>(disk: &'a Vec<DiskFile>, path: &[char]) -> (r: Option<&'a DiskFile>)
    ensures
        match r {
            Some(d) => disk_file(disk_views(disk@), path@) == Some(d@),
            None => disk_file(disk_views(disk@), path@) is None,
        },
{
    let ghost dv = disk_views(disk@);
    let mut i: usize = 0;
    assert(dv.skip(0) =~= dv);
    while i < disk.len()
        invariant
            i <= disk@.len(),
            dv == disk_views(disk@),
            disk_file(dv.skip(i as int), path@) == disk_file(dv, path@),
        decreases disk@.len() - i,
    {
        assert(dv.skip(i as int)[0] == disk@[i as int]@);
        assert(dv.skip(i as int).drop_first() =~= dv.skip(i + 1));
        if same_chars(string_chars(&disk[i].path).as_slice(), path) {
            return Some(&disk[i]);
        }
        i += 1;
    }
    None
}

fn check_holds(disk: &Vec<DiskFile>, path: &String, bytes: &Vec<u8>, changed: String) -> (r: Result<(), String>)
    ensures
        match r {
            Ok(()) => still_holds(disk_views(disk@), path@, bytes@, changed@) == Ok::<(), Seq<char>>(()),
            Err(e) => still_holds(disk_views(disk@), path@, bytes@, changed@) == Err::<(), Seq<char>>(e@),
        },
{
    match lookup_disk(disk, string_chars(path).as_slice()) {
        None => {
            let mut m = string_chars(path);
            push_str(&mut m, ": stato su disco non disponibile.");
            Err(from_chars(m.as_slice()))
        },
        Some(d) => match &d.contents {
            Err(e) => Err(copy_string(e)),
            Ok(b) => if !same_bytes(b, bytes) {
                Err(changed)
            } else {
                Ok(())
            },
        },
    }
}

pub(crate) fn same_bytes(a: &Vec<u8>, b: &Vec<u8>) -> (r: bool)
    ensures
        r == (a@ == b@),
{
    if a.len() != b.len() {
        return false;
    }
    let mut i: usize = 0;
    while i < a.len()
        invariant
            i <= a@.len() == b@.len(),
            forall|j: int| 0 <= j < i ==> a@[j] == b@[j],
        decreases a@.len() - i,
    {
        if a[i] != b[i] {
            return false;
        }
        i += 1;
    }
    assert(a@ =~= b@);
    true
}

fn changed_message(path: &String) -> (r: String)
    ensures
        r@ == changed_on_disk(path@),
{
    let mut m = string_chars(path);
    push_str(&mut m, " è cambiato esternamente. Riapri il mondo prima di salvare.");
    from_chars(m.as_slice())
}

fn find_league<'a>(ls: &'a Vec<LeagueFile>, path: &String) -> (r: Option<&'a LeagueFile>)
    ensures
        match r {
            Some(l) => league_at(league_views(ls@), path@) == Some(l@),
            None => league_at(league_views(ls@), path@) is None,
        },
{
    let ghost lv = league_views(ls@);
    let p = string_chars(path);
    let mut i: usize = 0;
    assert(lv.skip(0) =~= lv);
    while i < ls.len()
        invariant
            i <= ls@.len(),
            lv == league_views(ls@),
            p@ == path@,
            league_at(lv.skip(i as int), path@) == league_at(lv, path@),
        decreases ls@.len() - i,
    {
        assert(lv.skip(i as int)[0] == ls@[i as int]@);
        assert(lv.skip(i as int).drop_first() =~= lv.skip(i + 1));
        if same_chars(string_chars(&ls[i].path).as_slice(), p.as_slice()) {
            return Some(&ls[i]);
        }
        i += 1;
    }
    None
}

pub(crate) fn same_sources(a: &Vec<Option<usize>>, b: &Vec<Option<usize>>) -> (r: bool)
    ensures
        r == (a@ == b@),
{
    if a.len() != b.len() {
        return false;
    }
    let mut i: usize = 0;
    while i < a.len()
        invariant
            i <= a@.len() == b@.len(),
            forall|j: int| 0 <= j < i ==> a@[j] == b@[j],
        decreases a@.len() - i,
    {
        let same = match (a[i], b[i]) {
            (Some(x), Some(y)) => x == y,
            (None, None) => true,
            _ => false,
        };
        if !same {
            return false;
        }
        i += 1;
    }
    assert(a@ =~= b@);
    true
}

/// The paths whose state on disk `prepare` looks at (see `paths_to_check`).
pub fn files_to_check(world: &World, saved: &World, teams: &Option<String>) -> (r: Vec<String>)
    ensures
        string_views(r@) == paths_to_check(world@, saved@, world.deleted_clubs.ordered(), match teams {
            Some(t) => Some(t@),
            None => None,
        }),
{
    let ghost wv = world@;
    let ghost sv = saved@;
    let mut out: Vec<String> = Vec::new();
    let mut i: usize = 0;
    assert(string_views(out@) =~= wv.leagues.map_values(|l: LeagueModel| l.path).take(0));
    while i < world.leagues.len()
        invariant
            i <= world.leagues@.len(),
            wv == world@,
            string_views(out@) == wv.leagues.map_values(|l: LeagueModel| l.path).take(i as int),
        decreases world.leagues@.len() - i,
    {
        assert(wv.leagues[i as int] == world.leagues@[i as int]@);
        let ghost before = string_views(out@);
        out.push(copy_string(&world.leagues[i].path));
        assert(string_views(out@) =~= before.push(wv.leagues[i as int].path));
        assert(wv.leagues.map_values(|l: LeagueModel| l.path).take(i + 1) =~= wv.leagues.map_values(|l: LeagueModel| l.path).take(
            i as int,
        ).push(wv.leagues[i as int].path));
        i += 1;
    }
    let ghost a = string_views(out@);
    assert(wv.leagues.map_values(|l: LeagueModel| l.path).take(i as int) =~= wv.leagues.map_values(|l: LeagueModel| l.path));
    let mut j: usize = 0;
    assert(a + sv.leagues.map_values(|l: LeagueModel| l.path).take(0) =~= a);
    while j < saved.leagues.len()
        invariant
            j <= saved.leagues@.len(),
            sv == saved@,
            string_views(out@) == a + sv.leagues.map_values(|l: LeagueModel| l.path).take(j as int),
        decreases saved.leagues@.len() - j,
    {
        assert(sv.leagues[j as int] == saved.leagues@[j as int]@);
        let ghost before = string_views(out@);
        out.push(copy_string(&saved.leagues[j].path));
        assert(string_views(out@) =~= before.push(sv.leagues[j as int].path));
        assert(sv.leagues.map_values(|l: LeagueModel| l.path).take(j + 1) =~= sv.leagues.map_values(|l: LeagueModel| l.path).take(
            j as int,
        ).push(sv.leagues[j as int].path));
        assert(string_views(out@) =~= a + sv.leagues.map_values(|l: LeagueModel| l.path).take(j + 1));
        j += 1;
    }
    assert(sv.leagues.map_values(|l: LeagueModel| l.path).take(j as int) =~= sv.leagues.map_values(|l: LeagueModel| l.path));
    let ghost c = string_views(out@);
    match teams {
        Some(dir) => {
            let names = world.deleted_clubs.names();
            let ghost nv = string_views(names@);
            let mut k: usize = 0;
            assert(c + nv.map_values(|x: Seq<char>| league_path_of(dir@, x)).take(0) =~= c);
            while k < names.len()
                invariant
                    k <= names@.len(),
                    nv == string_views(names@),
                    string_views(out@) == c + nv.map_values(|x: Seq<char>| league_path_of(dir@, x)).take(k as int),
                decreases names@.len() - k,
            {
                assert(nv[k as int] == names@[k as int]@);
                let ghost before = string_views(out@);
                let lp = league_path(dir.as_str(), names[k].as_str());
                out.push(lp);
                assert(string_views(out@) =~= before.push(league_path_of(dir@, nv[k as int])));
                assert(nv.map_values(|x: Seq<char>| league_path_of(dir@, x)).take(k + 1) =~= nv.map_values(
                    |x: Seq<char>| league_path_of(dir@, x),
                ).take(k as int).push(league_path_of(dir@, nv[k as int])));
                assert(string_views(out@) =~= c + nv.map_values(|x: Seq<char>| league_path_of(dir@, x)).take(k + 1));
                k += 1;
            }
            assert(nv.map_values(|x: Seq<char>| league_path_of(dir@, x)).take(k as int) =~= nv.map_values(
                |x: Seq<char>| league_path_of(dir@, x),
            ));
        },
        None => {
            assert(c + seq![] =~= c);
        },
    }
    out
}

/// Appends to `changes` what league `league` of the world needs (see
/// `league_change_step`).
fn league_change(saved: &World, disk: &Vec<DiskFile>, league: &LeagueFile, changes: &mut Vec<FileChange>) -> (r: Result<(), String>)
    ensures
        match r {
            Ok(()) => league_change_step(saved@.leagues, disk_views(disk@), Ok(change_views(old(changes)@)), league@)
                == Ok::<Seq<FileChangeModel>, Seq<char>>(change_views(final(changes)@)),
            Err(e) => league_change_step(saved@.leagues, disk_views(disk@), Ok(change_views(old(changes)@)), league@)
                == Err::<Seq<FileChangeModel>, Seq<char>>(e@),
        },
{
    let old = find_league(&saved.leagues, &league.path);
    let changed = match old {
        None => true,
        Some(o) => !same_divisions(&o.divisions, &league.divisions) || !same_sources(&o.division_sources, &league.division_sources),
    };
    if !changed {
        return Ok(());
    }
    let before = match old {
        Some(o) => {
            match check_holds(disk, &league.path, &o.source_bytes, changed_message(&league.path)) {
                Err(e) => {
                    return Err(e);
                },
                Ok(()) => {},
            }
            Some(copy_bytes(&o.source_bytes))
        },
        None => None,
    };
    match render(league) {
        Err(e) => Err(e),
        Ok(after) => {
            let ghost cs = change_views(changes@);
            let c = FileChange::replacement(copy_string(&league.path), before, after);
            changes.push(c);
            assert(change_views(changes@) =~= cs.push(c@));
            Ok(())
        },
    }
}

/// Appends to `changes` what saved league `old_league` needs (see
/// `removal_step`).
fn removal_change(world: &World, disk: &Vec<DiskFile>, old_league: &LeagueFile, changes: &mut Vec<FileChange>) -> (r: Result<(), String>)
    ensures
        match r {
            Ok(()) => removal_step(world@.leagues, disk_views(disk@), Ok(change_views(old(changes)@)), old_league@)
                == Ok::<Seq<FileChangeModel>, Seq<char>>(change_views(final(changes)@)),
            Err(e) => removal_step(world@.leagues, disk_views(disk@), Ok(change_views(old(changes)@)), old_league@)
                == Err::<Seq<FileChangeModel>, Seq<char>>(e@),
        },
{
    let present = find_league(&world.leagues, &old_league.path).is_some();
    proof {
        lemma_league_at_found(world@.leagues, old_league.path@);
    }
    if present {
        return Ok(());
    }
    match check_holds(disk, &old_league.path, &old_league.source_bytes, changed_message(&old_league.path)) {
        Err(e) => {
            return Err(e);
        },
        Ok(()) => {},
    }
    let ghost cs = change_views(changes@);
    let c = FileChange::deletion(copy_string(&old_league.path), copy_bytes(&old_league.source_bytes));
    changes.push(c);
    assert(change_views(changes@) =~= cs.push(c@));
    Ok(())
}

/// Appends to `changes` what deleted club `club` needs (see
/// `team_deletion_step`).
fn team_deletion(world: &World, dir: &String, disk: &Vec<DiskFile>, club: &String, changes: &mut Vec<FileChange>) -> (r: Result<(), String>)
    ensures
        match r {
            Ok(()) => team_deletion_step(world@, dir@, disk_views(disk@), Ok(change_views(old(changes)@)), club@)
                == Ok::<Seq<FileChangeModel>, Seq<char>>(change_views(final(changes)@)),
            Err(e) => team_deletion_step(world@, dir@, disk_views(disk@), Ok(change_views(old(changes)@)), club@)
                == Err::<Seq<FileChangeModel>, Seq<char>>(e@),
        },
{
    if world.is_referenced(club.as_str()) {
        return Ok(());
    }
    let path = league_path(dir.as_str(), club.as_str());
    match lookup_disk(disk, string_chars(&path).as_slice()) {
        None => {
            let mut m = string_chars(&path);
            push_str(&mut m, ": stato su disco non disponibile.");
            Err(from_chars(m.as_slice()))
        },
        Some(d) => {
            if !d.exists {
                return Ok(());
            }
            match &d.contents {
                Err(e) => Err(copy_string(e)),
                Ok(bytes) => {
                    let ghost cs = change_views(changes@);
                    let c = FileChange::deletion(path, copy_bytes(bytes));
                    changes.push(c);
                    assert(change_views(changes@) =~= cs.push(c@));
                    Ok(())
                },
            }
        },
    }
}

/// The file changes that save `world` over `saved` (the computing part of
/// preparing a save), given the Team folder and the state on disk of the
/// files that `files_to_check` lists: see `planned_changes`.
pub fn prepare(world: &World, saved: &World, teams: &Option<String>, disk: &Vec<DiskFile>) -> (r: Result<Vec<FileChange>, String>)
    ensures
        ({
            let planned = planned_changes(world@, saved@, world.deleted_clubs.ordered(), match teams {
                Some(t) => Some(t@),
                None => None,
            }, disk_views(disk@));
            match r {
                Ok(cs) => planned == Ok::<Seq<FileChangeModel>, Seq<char>>(change_views(cs@)),
                Err(e) => planned == Err::<Seq<FileChangeModel>, Seq<char>>(e@),
            }
        }),
{
    let ghost wv = world@;
    let ghost sv = saved@;
    let ghost dv = disk_views(disk@);
    let ghost tv = match teams {
        Some(t) => Some(t@),
        None => None::<Seq<char>>,
    };
    let mut changes: Vec<FileChange> = Vec::new();
    assert(change_views(changes@) =~= seq![]);
    let mut i: usize = 0;
    while i < world.leagues.len()
        invariant
            i <= world.leagues@.len(),
            wv == world@,
            sv == saved@,
            dv == disk_views(disk@),
            league_changes(wv.leagues, sv.leagues, dv, i as nat) == Ok::<Seq<FileChangeModel>, Seq<char>>(change_views(changes@)),
        decreases world.leagues@.len() - i,
    {
        assert(wv.leagues[i as int] == world.leagues@[i as int]@);
        match league_change(saved, disk, &world.leagues[i], &mut changes) {
            Err(e) => {
                proof {
                    lemma_league_changes_fail(wv.leagues, sv.leagues, dv, (i + 1) as nat, wv.leagues.len(), e@);
                    lemma_removal_changes_fail(wv.leagues, sv.leagues, dv, Err(e@), 0, sv.leagues.len(), e@);
                }
                return Err(e);
            },
            Ok(()) => {},
        }
        i += 1;
    }
    let ghost a = league_changes(wv.leagues, sv.leagues, dv, wv.leagues.len());
    let mut j: usize = 0;
    while j < saved.leagues.len()
        invariant
            j <= saved.leagues@.len(),
            wv == world@,
            sv == saved@,
            dv == disk_views(disk@),
            a == league_changes(wv.leagues, sv.leagues, dv, wv.leagues.len()),
            removal_changes(wv.leagues, sv.leagues, dv, a, j as nat) == Ok::<Seq<FileChangeModel>, Seq<char>>(change_views(changes@)),
        decreases saved.leagues@.len() - j,
    {
        assert(sv.leagues[j as int] == saved.leagues@[j as int]@);
        match removal_change(world, disk, &saved.leagues[j], &mut changes) {
            Err(e) => {
                proof {
                    lemma_removal_changes_fail(wv.leagues, sv.leagues, dv, a, (j + 1) as nat, sv.leagues.len(), e@);
                }
                return Err(e);
            },
            Ok(()) => {},
        }
        j += 1;
    }
    let ghost b = removal_changes(wv.leagues, sv.leagues, dv, a, sv.leagues.len());
    let ghost c0 = b;
    let dir = match teams {
        Some(d) => d,
        None => {
            return Err(literal("Cartella Data non disponibile."));
        },
    };
    let names = world.deleted_clubs.names();
    let ghost nv = string_views(names@);
    assert(planned_changes(wv, sv, world.deleted_clubs.ordered(), tv, dv) == team_deletions(wv, dir@, dv, nv, c0, nv.len()));
    let mut k: usize = 0;
    while k < names.len()
        invariant
            k <= names@.len(),
            wv == world@,
            dv == disk_views(disk@),
            nv == string_views(names@),
            sv == saved@,
            tv == match teams {
                Some(t) => Some(t@),
                None => None::<Seq<char>>,
            },
            planned_changes(wv, sv, world.deleted_clubs.ordered(), tv, dv) == team_deletions(wv, dir@, dv, nv, c0, nv.len()),
            team_deletions(wv, dir@, dv, nv, c0, k as nat) == Ok::<Seq<FileChangeModel>, Seq<char>>(change_views(changes@)),
        decreases names@.len() - k,
    {
        assert(nv[k as int] == names@[k as int]@);
        match team_deletion(world, dir, disk, &names[k], &mut changes) {
            Err(e) => {
                proof {
                    lemma_team_deletions_fail(wv, dir@, dv, nv, c0, (k + 1) as nat, nv.len(), e@);
                }
                return Err(e);
            },
            Ok(()) => {},
        }
        k += 1;
    }
    Ok(changes)
}

proof fn lemma_league_at_found(ls: Seq<LeagueModel>, path: Seq<char>)
    ensures
        (league_at(ls, path) is Some) == has_league_at(ls, path),
    decreases ls.len(),
{
    if ls.len() > 0 {
        lemma_league_at_found(ls.drop_first(), path);
        if ls[0].path == path {
            assert(ls[0].path == path);
        } else {
            if has_league_at(ls, path) {
                let i = choose|i: int| 0 <= i < ls.len() && #[trigger] ls[i].path == path;
                assert(ls.drop_first()[i - 1].path == path);
            }
            if has_league_at(ls.drop_first(), path) {
                let i = choose|i: int| 0 <= i < ls.drop_first().len() && #[trigger] ls.drop_first()[i].path == path;
                assert(ls[i + 1].path == path);
            }
        }
    }
}

proof fn lemma_league_changes_fail(ls: Seq<LeagueModel>, saved: Seq<LeagueModel>, disk: Seq<DiskFileModel>, a: nat, b: nat, e: Seq<char>)
    requires
        a <= b,
        league_changes(ls, saved, disk, a) == Err::<Seq<FileChangeModel>, Seq<char>>(e),
    ensures
        league_changes(ls, saved, disk, b) == Err::<Seq<FileChangeModel>, Seq<char>>(e),
    decreases b - a,
{
    if a < b {
        lemma_league_changes_fail(ls, saved, disk, a, (b - 1) as nat, e);
    }
}

proof fn lemma_removal_changes_fail(ls: Seq<LeagueModel>, saved: Seq<LeagueModel>, disk: Seq<DiskFileModel>, start: Result<Seq<FileChangeModel>, Seq<char>>, a: nat, b: nat, e: Seq<char>)
    requires
        a <= b,
        removal_changes(ls, saved, disk, start, a) == Err::<Seq<FileChangeModel>, Seq<char>>(e),
    ensures
        removal_changes(ls, saved, disk, start, b) == Err::<Seq<FileChangeModel>, Seq<char>>(e),
    decreases b - a,
{
    if a < b {
        lemma_removal_changes_fail(ls, saved, disk, start, a, (b - 1) as nat, e);
    }
}

proof fn lemma_team_deletions_fail(w: WorldModel, teams: Seq<char>, disk: Seq<DiskFileModel>, clubs: Seq<Seq<char>>, start: Result<Seq<FileChangeModel>, Seq<char>>, a: nat, b: nat, e: Seq<char>)
    requires
        a <= b,
        team_deletions(w, teams, disk, clubs, start, a) == Err::<Seq<FileChangeModel>, Seq<char>>(e),
    ensures
        team_deletions(w, teams, disk, clubs, start, b) == Err::<Seq<FileChangeModel>, Seq<char>>(e),
    decreases b - a,
{
    if a < b {
        lemma_team_deletions_fail(w, teams, disk, clubs, start, a, (b - 1) as nat, e);
    }
}

// ---------------------------------------------------------------------------
// Before and after writing
// ---------------------------------------------------------------------------

/// Whether change `c` can be made on the disk as found: a file to replace
/// or delete must still hold what it held when read, and a new file must
/// not exist yet.
pub open spec fn change_allowed(c: FileChangeModel, disk: Seq<DiskFileModel>) -> Result<(), Seq<char>> {
    match c.before {
        Some(b) => still_holds(disk, c.path, b, c.path + " è cambiato esternamente; nessun file è stato salvato."@),
        None => match disk_file(disk, c.path) {
            None => Err(not_read(c.path)),
            Some(d) => if d.exists {
                Err(c.path + " esiste già; nessun file è stato salvato."@)
            } else {
                Ok(())
            },
        },
    }
}

/// The first change of `cs` that cannot be made, as its reason.
pub open spec fn changes_allowed(cs: Seq<FileChangeModel>, disk: Seq<DiskFileModel>) -> Result<(), Seq<char>>
    decreases cs.len(),
{
    if cs.len() == 0 {
        Ok(())
    } else {
        match change_allowed(cs[0], disk) {
            Err(e) => Err(e),
            Ok(()) => changes_allowed(cs.drop_first(), disk),
        }
    }
}

/// Whether all the changes can be made on the disk as found (the check
/// that comes before any file is written): see `changes_allowed`.
pub fn check_changes(changes: &Vec<FileChange>, disk: &Vec<DiskFile>) -> (r: Result<(), String>)
    ensures
        match r {
            Ok(()) => changes_allowed(change_views(changes@), disk_views(disk@)) == Ok::<(), Seq<char>>(()),
            Err(e) => changes_allowed(change_views(changes@), disk_views(disk@)) == Err::<(), Seq<char>>(e@),
        },
{
    let ghost cv = change_views(changes@);
    let ghost dv = disk_views(disk@);
    let mut i: usize = 0;
    assert(cv.skip(0) =~= cv);
    while i < changes.len()
        invariant
            i <= changes@.len(),
            cv == change_views(changes@),
            dv == disk_views(disk@),
            changes_allowed(cv.skip(i as int), dv) == changes_allowed(cv, dv),
        decreases changes@.len() - i,
    {
        let c = &changes[i];
        assert(cv.skip(i as int)[0] == c@);
        assert(cv.skip(i as int).drop_first() =~= cv.skip(i + 1));
        match &c.before {
            Some(b) => {
                let mut m = string_chars(&c.path);
                push_str(&mut m, " è cambiato esternamente; nessun file è stato salvato.");
                match check_holds(disk, &c.path, b, from_chars(m.as_slice())) {
                    Err(e) => {
                        return Err(e);
                    },
                    Ok(()) => {},
                }
            },
            None => match lookup_disk(disk, string_chars(&c.path).as_slice()) {
                None => {
                    let mut m = string_chars(&c.path);
                    push_str(&mut m, ": stato su disco non disponibile.");
                    return Err(from_chars(m.as_slice()));
                },
                Some(d) => {
                    if d.exists {
                        let mut m = string_chars(&c.path);
                        push_str(&mut m, " esiste già; nessun file è stato salvato.");
                        return Err(from_chars(m.as_slice()));
                    }
                },
            },
        }
        i += 1;
    }
    assert(cv.skip(i as int).len() == 0);
    Ok(())
}

/// A league read again from the disk after a save: the file as written,
/// when it could be read; else the league as it was.
pub open spec fn reread_league(l: LeagueModel, disk: Seq<DiskFileModel>) -> LeagueModel {
    match disk_file(disk, l.path) {
        Some(d) => match d.contents {
            Ok(b) => LeagueModel { source_bytes: b, ..parsed_league(l.path, decoded_text(b)) },
            Err(_) => l,
        },
        None => l,
    }
}

/// A world after a save: its leagues and its international file read
/// again from the disk, where they could be, and no club waiting for
/// removal.
pub open spec fn saved_world(w: WorldModel, disk: Seq<DiskFileModel>) -> WorldModel {
    let intl = match w.international_file {
        Some(p) => match disk_file(disk, p) {
            Some(d) => match d.contents {
                Ok(b) => Some(b),
                Err(_) => None,
            },
            None => None,
        },
        None => None,
    };
    WorldModel {
        leagues: w.leagues.map_values(|l: LeagueModel| reread_league(l, disk)),
        international_bytes: match intl {
            Some(b) => b,
            None => w.international_bytes,
        },
        international_countries: match intl {
            Some(b) => parsed_countries(decoded_text(b)).0,
            None => w.international_countries,
        },
        retained_clubs: Set::empty(),
        deleted_clubs: Set::empty(),
        ..w
    }
}

/// Takes the files as written into the world after a save (the computing
/// part of marking a world saved), given the state on disk of its league
/// files and its international file: see `saved_world`.
pub fn mark_saved(world: &mut World, disk: &Vec<DiskFile>)
    ensures
        final(world)@ == saved_world(old(world)@, disk_views(disk@)),
{
    let ghost w0 = world@;
    let ghost dv = disk_views(disk@);
    let mut i: usize = 0;
    while i < world.leagues.len()
        invariant
            i <= world.leagues@.len(),
            world.leagues@.len() == w0.leagues.len(),
            dv == disk_views(disk@),
            world@ == (WorldModel { leagues: world@.leagues, ..w0 }),
            forall|j: int| 0 <= j < i ==> #[trigger] world@.leagues[j] == reread_league(w0.leagues[j], dv),
            forall|j: int| i <= j < world.leagues@.len() ==> #[trigger] world@.leagues[j] == w0.leagues[j],
        decreases world.leagues@.len() - i,
    {
        let ghost before = world@.leagues;
        assert(before[i as int] == world.leagues@[i as int]@);
        let found = lookup_disk(disk, string_chars(&world.leagues[i].path).as_slice());
        match found {
            Some(d) => match &d.contents {
                Ok(bytes) => {
                    let text = decode_text(bytes.as_slice());
                    let mut parsed = parse_league(world.leagues[i].path.as_str(), text.as_str());
                    parsed.source_bytes = copy_bytes(bytes);
                    let ghost pv = parsed@;
                    world.leagues.set(i, parsed);
                    assert(world@.leagues =~= before.update(i as int, pv));
                },
                Err(_) => {},
            },
            None => {},
        }
        i += 1;
    }
    assert(world@.leagues =~= w0.leagues.map_values(|l: LeagueModel| reread_league(l, dv)));
    let mut new_bytes: Option<Vec<u8>> = None;
    match &world.international_file {
        Some(p) => match lookup_disk(disk, string_chars(p).as_slice()) {
            Some(d) => match &d.contents {
                Ok(bytes) => {
                    new_bytes = Some(copy_bytes(bytes));
                },
                Err(_) => {},
            },
            None => {},
        },
        None => {},
    }
    match new_bytes {
        Some(bytes) => {
            let (countries, _) = parse_international_countries(decode_text(bytes.as_slice()).as_str());
            world.international_bytes = bytes;
            world.international_countries = countries;
        },
        None => {},
    }
    world.retained_clubs.clear();
    world.deleted_clubs.clear();
}

/// What a read gives back of a write: the international file written in
/// UTF-8, decoded and parsed again, holds exactly the country blocks synced
/// into it, with no warning, and it starts with a byte order mark exactly
/// when the file read did.
pub proof fn law_international_reads_back(source_bytes: Seq<u8>, cs: Seq<CountryModel>, bytes: Seq<u8>, text: Seq<char>)
    requires
        international_bytes(source_bytes, cs) == Ok::<Seq<u8>, Seq<char>>(bytes),
        international_text(source_bytes, cs) == Ok::<Seq<char>, Seq<char>>(text),
        valid_utf8(source_bytes),
    ensures
        parsed_countries(decoded_text(bytes)).0 == cs,
        parsed_countries(decoded_text(bytes)).1.len() == 0,
        has_bom(bytes) <==> has_bom(source_bytes),
{
    broadcast use vstd::utf8::encode_utf8_valid_utf8, vstd::utf8::encode_utf8_decode_utf8;
    crate::save_laws::lemma_international_text_start(source_bytes, cs, text);
    law_utf8_reads_back(source_bytes, text);
    if has_bom(source_bytes) {
        assert(bytes.take(3) =~= utf8_bom());
    } else if has_bom(bytes) {
        lemma_bom_decodes(bytes);
        assert(vstd::utf8::decode_utf8(bytes) == text);
        assert(text[0] == '\u{feff}');
    }
}

/// Whether league `l` differs in its divisions from the saved league with
/// its path (or has none): such a league has its clubs synchronised into
/// the international file by `sync_changed_leagues`.
pub open spec fn needs_sync(l: LeagueModel, saved: Seq<LeagueModel>) -> bool {
    match league_at(saved, l.path) {
        None => true,
        Some(o) => o.divisions != l.divisions,
    }
}

/// The world after synchronising, in order, each of the first `n` leagues
/// that needs it, or the first synchronisation that fails.
pub open spec fn synced_changed(w: WorldModel, saved: Seq<LeagueModel>, n: nat) -> Result<WorldModel, Seq<char>>
    decreases n,
{
    if n == 0 {
        Ok(w)
    } else {
        match synced_changed(w, saved, (n - 1) as nat) {
            Err(e) => Err(e),
            Ok(w1) => if n - 1 < w1.leagues.len() && needs_sync(w1.leagues[n - 1], saved) {
                match sync_outcome(w1, n - 1) {
                    Err(e) => Err(e),
                    Ok(cs) => Ok(WorldModel { international_countries: cs, ..w1 }),
                }
            } else {
                Ok(w1)
            },
        }
    }
}

proof fn lemma_synced_changed_fail(w: WorldModel, saved: Seq<LeagueModel>, a: nat, b: nat, e: Seq<char>)
    requires
        a <= b,
        synced_changed(w, saved, a) == Err::<WorldModel, Seq<char>>(e),
    ensures
        synced_changed(w, saved, b) == Err::<WorldModel, Seq<char>>(e),
    decreases b - a,
{
    if a < b {
        lemma_synced_changed_fail(w, saved, a, (b - 1) as nat, e);
    }
}

/// Synchronises into the country blocks held in memory, in order, every
/// league whose divisions differ from `saved`; on a failure the
/// synchronisations made so far stay (see `synced_changed`). A save does not
/// write them to the international file.
pub fn sync_changed_leagues(world: &mut World, saved: &World) -> (r: Result<(), String>)
    ensures
        match r {
            Ok(()) => synced_changed(old(world)@, saved@.leagues, old(world)@.leagues.len()) == Ok::<WorldModel, Seq<char>>(final(world)@),
            Err(e) => synced_changed(old(world)@, saved@.leagues, old(world)@.leagues.len()) == Err::<WorldModel, Seq<char>>(e@),
        },
{
    let ghost w0 = world@;
    let mut i: usize = 0;
    while i < world.leagues.len()
        invariant
            i <= world.leagues@.len(),
            world@.leagues == w0.leagues,
            w0 == old(world)@,
            synced_changed(w0, saved@.leagues, i as nat) == Ok::<WorldModel, Seq<char>>(world@),
        decreases world.leagues@.len() - i,
    {
        let changed = match find_league(&saved.leagues, &world.leagues[i].path) {
            None => true,
            Some(old) => !same_divisions(&old.divisions, &world.leagues[i].divisions),
        };
        assert(world@.leagues[i as int] == world.leagues@[i as int]@);
        assert(changed == needs_sync(world@.leagues[i as int], saved@.leagues));
        let ghost wb = world@;
        if changed {
            match world.sync_international(i) {
                Err(e) => {
                    assert(sync_outcome(wb, i as int) == Err::<Seq<CountryModel>, Seq<char>>(e@));
                    assert(synced_changed(w0, saved@.leagues, (i + 1) as nat) == Err::<WorldModel, Seq<char>>(e@));
                    proof {
                        lemma_synced_changed_fail(w0, saved@.leagues, (i + 1) as nat, w0.leagues.len(), e@);
                    }
                    return Err(e);
                },
                Ok(()) => {},
            }
        }
        i += 1;
    }
    Ok(())
}

/// Whether no two leagues share a path.
pub open spec fn distinct_paths(ls: Seq<LeagueModel>) -> bool {
    forall|i: int, j: int| 0 <= i < j < ls.len() ==> (#[trigger] ls[i]).path != (#[trigger] ls[j]).path
}

proof fn lemma_league_at_index(ls: Seq<LeagueModel>, i: int)
    requires
        distinct_paths(ls),
        0 <= i < ls.len(),
    ensures
        league_at(ls, ls[i].path) == Some(ls[i]),
    decreases i,
{
    if i > 0 {
        assert(ls[0].path != ls[i].path);
        assert forall|a: int, b: int| 0 <= a < b < ls.drop_first().len() implies (#[trigger] ls.drop_first()[a]).path
            != (#[trigger] ls.drop_first()[b]).path by {
            assert(ls.drop_first()[a] == ls[a + 1]);
            assert(ls.drop_first()[b] == ls[b + 1]);
        }
        assert(ls.drop_first()[i - 1] == ls[i]);
        lemma_league_at_index(ls.drop_first(), i - 1);
    }
}

proof fn lemma_unchanged_leagues(ls: Seq<LeagueModel>, disk: Seq<DiskFileModel>, n: nat)
    requires
        distinct_paths(ls),
        n <= ls.len(),
    ensures
        league_changes(ls, ls, disk, n) == Ok::<Seq<FileChangeModel>, Seq<char>>(seq![]),
    decreases n,
{
    if n > 0 {
        lemma_unchanged_leagues(ls, disk, (n - 1) as nat);
        lemma_league_at_index(ls, n - 1);
    }
}

proof fn lemma_nothing_removed(ls: Seq<LeagueModel>, disk: Seq<DiskFileModel>, n: nat)
    requires
        n <= ls.len(),
    ensures
        removal_changes(ls, ls, disk, Ok(seq![]), n) == Ok::<Seq<FileChangeModel>, Seq<char>>(seq![]),
    decreases n,
{
    if n > 0 {
        lemma_nothing_removed(ls, disk, (n - 1) as nat);
        assert(ls[n - 1].path == ls[n - 1].path);
        assert(has_league_at(ls, ls[n - 1].path));
    }
}

/// Saving a world over itself changes no file: only what was edited is
/// written (for a world whose leagues have distinct paths, with no club
/// waiting for deletion).
pub proof fn law_unchanged_world_writes_nothing(w: WorldModel, teams: Seq<char>, disk: Seq<DiskFileModel>)
    requires
        distinct_paths(w.leagues),
    ensures
        planned_changes(w, w, seq![], Some(teams), disk) == Ok::<Seq<FileChangeModel>, Seq<char>>(seq![]),
{
    lemma_unchanged_leagues(w.leagues, disk, w.leagues.len());
    lemma_nothing_removed(w.leagues, disk, w.leagues.len());
}

/// A league file that changed on disk since it was read is never
/// overwritten: when an edited league's file no longer holds the bytes
/// read, the save is refused.
pub proof fn law_external_change_refuses_save(
    w: WorldModel,
    saved: WorldModel,
    deleted: Seq<Seq<char>>,
    teams: Option<Seq<char>>,
    disk: Seq<DiskFileModel>,
    i: int,
)
    requires
        0 <= i < w.leagues.len(),
        league_at(saved.leagues, w.leagues[i].path) matches Some(o) && league_changed(w.leagues[i], Some(o))
            && still_holds(disk, w.leagues[i].path, o.source_bytes, changed_on_disk(w.leagues[i].path)) is Err,
    ensures
        planned_changes(w, saved, deleted, teams, disk) is Err,
{
    let a = league_changes(w.leagues, saved.leagues, disk, (i + 1) as nat);
    assert(a is Err);
    let e = a->Err_0;
    lemma_league_changes_fail(w.leagues, saved.leagues, disk, (i + 1) as nat, w.leagues.len(), e);
    lemma_removal_changes_fail(w.leagues, saved.leagues, disk, Err(e), 0, saved.leagues.len(), e);
}

/// Whether the change `c` is one that an edit of `w` since `saved` calls
/// for: a league of `w` that differs from its saved version is written, a
/// saved league gone from `w` is deleted, and the team file of a deleted club
/// that nothing names any more is deleted.
pub open spec fn called_for(w: WorldModel, saved: WorldModel, deleted: Seq<Seq<char>>, teams: Seq<char>, c: FileChangeModel) -> bool {
    ||| exists|i: int|
        0 <= i < w.leagues.len() && #[trigger] w.leagues[i].path == c.path && league_changed(
            w.leagues[i],
            league_at(saved.leagues, c.path),
        ) && c.after is Some
    ||| exists|i: int|
        0 <= i < saved.leagues.len() && #[trigger] saved.leagues[i].path == c.path && !has_league_at(w.leagues, c.path)
            && c.after is None
    ||| exists|k: int|
        0 <= k < deleted.len() && c.path == league_path_of(teams, #[trigger] deleted[k]) && !referenced(w, deleted[k])
            && c.after is None
}

/// Whether every change of `acc`, when it is `Ok`, is called for.
pub open spec fn all_called_for(w: WorldModel, saved: WorldModel, deleted: Seq<Seq<char>>, teams: Seq<char>, acc: Result<Seq<FileChangeModel>, Seq<char>>) -> bool {
    acc matches Ok(cs) ==> forall|j: int| 0 <= j < cs.len() ==> called_for(w, saved, deleted, teams, #[trigger] cs[j])
}

proof fn lemma_league_changes_called_for(w: WorldModel, saved: WorldModel, deleted: Seq<Seq<char>>, teams: Seq<char>, disk: Seq<DiskFileModel>, n: nat)
    requires
        n <= w.leagues.len(),
    ensures
        all_called_for(w, saved, deleted, teams, league_changes(w.leagues, saved.leagues, disk, n)),
    decreases n,
{
    if n > 0 {
        lemma_league_changes_called_for(w, saved, deleted, teams, disk, (n - 1) as nat);
        let acc = league_changes(w.leagues, saved.leagues, disk, (n - 1) as nat);
        let r = league_changes(w.leagues, saved.leagues, disk, n);
        if let Ok(cs) = r {
            let l = w.leagues[n - 1];
            assert forall|j: int| 0 <= j < cs.len() implies called_for(w, saved, deleted, teams, #[trigger] cs[j]) by {
                let prev = acc->Ok_0;
                if j < prev.len() {
                    assert(cs[j] == prev[j]);
                } else {
                    assert(cs[j].path == l.path);
                    assert(w.leagues[n - 1].path == cs[j].path);
                }
            }
        }
    }
}

proof fn lemma_removals_called_for(w: WorldModel, saved: WorldModel, deleted: Seq<Seq<char>>, teams: Seq<char>, disk: Seq<DiskFileModel>, start: Result<Seq<FileChangeModel>, Seq<char>>, n: nat)
    requires
        n <= saved.leagues.len(),
        all_called_for(w, saved, deleted, teams, start),
    ensures
        all_called_for(w, saved, deleted, teams, removal_changes(w.leagues, saved.leagues, disk, start, n)),
    decreases n,
{
    if n > 0 {
        lemma_removals_called_for(w, saved, deleted, teams, disk, start, (n - 1) as nat);
        let acc = removal_changes(w.leagues, saved.leagues, disk, start, (n - 1) as nat);
        let r = removal_changes(w.leagues, saved.leagues, disk, start, n);
        if let Ok(cs) = r {
            let o = saved.leagues[n - 1];
            assert forall|j: int| 0 <= j < cs.len() implies called_for(w, saved, deleted, teams, #[trigger] cs[j]) by {
                let prev = acc->Ok_0;
                if j < prev.len() {
                    assert(cs[j] == prev[j]);
                } else {
                    assert(saved.leagues[n - 1].path == cs[j].path);
                }
            }
        }
    }
}

proof fn lemma_team_deletions_called_for(w: WorldModel, saved: WorldModel, deleted: Seq<Seq<char>>, teams: Seq<char>, disk: Seq<DiskFileModel>, start: Result<Seq<FileChangeModel>, Seq<char>>, n: nat)
    requires
        n <= deleted.len(),
        all_called_for(w, saved, deleted, teams, start),
    ensures
        all_called_for(w, saved, deleted, teams, team_deletions(w, teams, disk, deleted, start, n)),
    decreases n,
{
    if n > 0 {
        lemma_team_deletions_called_for(w, saved, deleted, teams, disk, start, (n - 1) as nat);
        let acc = team_deletions(w, teams, disk, deleted, start, (n - 1) as nat);
        let r = team_deletions(w, teams, disk, deleted, start, n);
        if let Ok(cs) = r {
            assert forall|j: int| 0 <= j < cs.len() implies called_for(w, saved, deleted, teams, #[trigger] cs[j]) by {
                let prev = acc->Ok_0;
                if j < prev.len() {
                    assert(cs[j] == prev[j]);
                } else {
                    assert(cs[j].path == league_path_of(teams, deleted[n - 1]));
                }
            }
        }
    }
}

/// Saving writes only what was edited: every file change of a save is
/// called for by an edit (see `called_for`).
pub proof fn law_save_writes_only_edits(w: WorldModel, saved: WorldModel, deleted: Seq<Seq<char>>, teams: Seq<char>, disk: Seq<DiskFileModel>)
    ensures
        all_called_for(w, saved, deleted, teams, planned_changes(w, saved, deleted, Some(teams), disk)),
{
    lemma_league_changes_called_for(w, saved, deleted, teams, disk, w.leagues.len());
    let a = league_changes(w.leagues, saved.leagues, disk, w.leagues.len());
    lemma_removals_called_for(w, saved, deleted, teams, disk, a, saved.leagues.len());
    let b = removal_changes(w.leagues, saved.leagues, disk, a, saved.leagues.len());
    lemma_team_deletions_called_for(w, saved, deleted, teams, disk, b, deleted.len());
}

/// A save does not write the international file: no change of a save has
/// its path (where no league file, saved or not, and no team file of a
/// deleted club has that path).
pub proof fn law_save_leaves_international_file(
    w: WorldModel,
    saved: WorldModel,
    deleted: Seq<Seq<char>>,
    teams: Seq<char>,
    disk: Seq<DiskFileModel>,
    path: Seq<char>,
)
    requires
        w.international_file == Some(path),
        !has_league_at(w.leagues, path),
        !has_league_at(saved.leagues, path),
        forall|k: int| 0 <= k < deleted.len() ==> league_path_of(teams, #[trigger] deleted[k]) != path,
    ensures
        planned_changes(w, saved, deleted, Some(teams), disk) matches Ok(cs) ==> forall|j: int|
            0 <= j < cs.len() ==> (#[trigger] cs[j]).path != path,
{
    law_save_writes_only_edits(w, saved, deleted, teams, disk);
    if let Ok(cs) = planned_changes(w, saved, deleted, Some(teams), disk) {
        assert forall|j: int| 0 <= j < cs.len() implies (#[trigger] cs[j]).path != path by {
            assert(called_for(w, saved, deleted, teams, cs[j]));
        }
    }
}

/// Whether a world differs from its saved version: its leagues (their
/// paths, divisions and sources), its country blocks, or clubs waiting to be
/// kept or deleted.
pub open spec fn world_differs(w: WorldModel, saved: WorldModel) -> bool {
    ||| w.leagues.len() != saved.leagues.len()
    ||| exists|i: int|
        0 <= i < w.leagues.len() && ((#[trigger] w.leagues[i]).path != saved.leagues[i].path || w.leagues[i].divisions
            != saved.leagues[i].divisions || w.leagues[i].division_sources != saved.leagues[i].division_sources)
    ||| w.international_countries != saved.international_countries
    ||| w.retained_clubs != Set::<Seq<char>>::empty()
    ||| w.deleted_clubs != Set::<Seq<char>>::empty()
}

/// Whether `world` has changes that are not saved (see `world_differs`).
pub fn has_unsaved_changes(world: &World, saved: &World) -> (r: bool)
    ensures
        r == world_differs(world@, saved@),
{
    let ghost w = world@;
    let ghost s = saved@;
    if world.leagues.len() != saved.leagues.len() {
        return true;
    }
    let mut i: usize = 0;
    while i < world.leagues.len()
        invariant
            i <= world.leagues@.len(),
            world.leagues@.len() == saved.leagues@.len(),
            w == world@,
            s == saved@,
            forall|j: int| 0 <= j < i ==> !((#[trigger] w.leagues[j]).path != s.leagues[j].path || w.leagues[j].divisions
                != s.leagues[j].divisions || w.leagues[j].division_sources != s.leagues[j].division_sources),
        decreases world.leagues@.len() - i,
    {
        let a = &world.leagues[i];
        let b = &saved.leagues[i];
        assert(w.leagues[i as int] == a@);
        assert(s.leagues[i as int] == b@);
        if !same_string(&a.path, &b.path) || !same_divisions(&a.divisions, &b.divisions) || !same_sources(
            &a.division_sources,
            &b.division_sources,
        ) {
            assert(w.leagues[i as int].path != s.leagues[i as int].path || w.leagues[i as int].divisions
                != s.leagues[i as int].divisions || w.leagues[i as int].division_sources
                != s.leagues[i as int].division_sources);
            return true;
        }
        i += 1;
    }
    !same_countries(&world.international_countries, &saved.international_countries) || !world.retained_clubs.is_empty()
        || !world.deleted_clubs.is_empty()
}

// ---------------------------------------------------------------------------
// Writing the changes
// ---------------------------------------------------------------------------

/// What writing the changes of a save does next: write change `i`, put back
/// the file of change `i` as it was before, or end with the outcome.
pub enum CommitAction {
    Write(usize),
    Restore(usize),
    Done(Result<(), String>),
}

/// Where the writing of `total` changes is: how many were written, the
/// failure that stopped it (if one did) and how many of the written files
/// were put back since.
pub struct Commit {
    pub total: usize,
    pub written: usize,
    pub failure: Option<String>,
    pub restored: usize,
}

/// The message of a save stopped by the failure `e`.
pub open spec fn interrupted(e: Seq<char>) -> Seq<char> {
    "Salvataggio interrotto: "@ + e
}

impl Commit {
    /// Whether the state is one that writing can reach: no more written than
    /// there are changes, no more put back than were written.
    pub open spec fn valid(&self) -> bool {
        &&& self.written <= self.total
        &&& self.restored <= self.written
        &&& self.failure is None ==> self.restored == 0
    }

    /// Before anything is written.
    pub fn start(total: usize) -> (r: Commit)
        ensures
            r.total == total,
            r.written == 0,
            r.failure is None,
            r.restored == 0,
            r.valid(),
    {
        Commit { total, written: 0, failure: None, restored: 0 }
    }

    /// What comes next: the changes are written in order; once one fails, the
    /// files already written are put back, the last written first, and the
    /// failure is the outcome; when all are written, the outcome is `Ok`.
    pub fn next_action(&self) -> (r: CommitAction)
        requires
            self.valid(),
        ensures
            match self.failure {
                None => if self.written < self.total {
                    r == CommitAction::Write(self.written)
                } else {
                    r matches CommitAction::Done(Ok(()))
                },
                Some(m) => if self.restored < self.written {
                    r == CommitAction::Restore((self.written - 1 - self.restored) as usize)
                } else {
                    r matches CommitAction::Done(Err(e)) && e@ == m@
                },
            },
    {
        match &self.failure {
            None => {
                if self.written < self.total {
                    CommitAction::Write(self.written)
                } else {
                    CommitAction::Done(Ok(()))
                }
            },
            Some(m) => {
                if self.restored < self.written {
                    CommitAction::Restore(self.written - 1 - self.restored)
                } else {
                    CommitAction::Done(Err(copy_string(m)))
                }
            },
        }
    }

    /// Takes in how the last action went: a change written, or the failure
    /// that stops the writing; a file put back (how that went does not
    /// matter: nothing more can be done for it).
    pub fn record(&mut self, outcome: Result<(), String>)
        requires
            old(self).valid(),
        ensures
            final(self).valid(),
            final(self).total == old(self).total,
            match old(self).failure {
                None => if old(self).written < old(self).total {
                    match outcome {
                        Ok(()) => final(self).written == old(self).written + 1 && final(self).failure is None
                            && final(self).restored == 0,
                        Err(e) => final(self).written == old(self).written && final(self).restored == 0
                            && (final(self).failure matches Some(m) && m@ == interrupted(e@)),
                    }
                } else {
                    *final(self) == *old(self)
                },
                Some(_) => if old(self).restored < old(self).written {
                    final(self).written == old(self).written && final(self).failure == old(self).failure
                        && final(self).restored == old(self).restored + 1
                } else {
                    *final(self) == *old(self)
                },
            },
    {
        if self.failure.is_none() {
            if self.written < self.total {
                match outcome {
                    Ok(()) => {
                        self.written = self.written + 1;
                    },
                    Err(e) => {
                        let mut m = to_chars("Salvataggio interrotto: ");
                        push_all(&mut m, string_chars(&e).as_slice());
                        self.failure = Some(from_chars(m.as_slice()));
                    },
                }
            }
        } else if self.restored < self.written {
            self.restored = self.restored + 1;
        }
    }
}

} // verus!
