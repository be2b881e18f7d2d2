//! Opening a world: the text files of its League folder, read in the order
//! of their lower-case paths, become its leagues and its international
//! file.
use vstd::prelude::*;
use crate::country_display::{CountryNames};
use crate::league_save::{join_lines, joined};
use crate::world_edit::{extension_of_path, file_name, join_path, joined_path, name_of_path, path_extension, path_stem, stem_of_path};
use crate::encoding::{decode_text, decoded_text};
use crate::leagues::{ClubSet, CountryModel, InternationalCountry, LeagueFile, LeagueModel, World, WorldModel, country_views, league_views, parse_international_countries, parse_league, parsed_countries, parsed_league};
use crate::save_laws::{read_league};
use crate::text::{copy_chars, copy_string, eq_ignore_case, from_chars, keyed_views, lemma_sorted_by_key_items, push_all, push_str, same_ignoring_case, sort_by_text_key, sorted_by_key, string_chars, string_views, to_chars, to_unicode_lowercase, unicode_lowercase};

verus! {

/// The folders that may hold a world's league files, in the order tried:
/// `Data/League` and `League` inside the selected folder, and the selected
/// folder itself when its name is `League` up to ASCII case.
pub open spec fn league_folder_candidates(selected: Seq<char>) -> Seq<Seq<char>> {
    let inside = seq![joined_path(selected, "Data/League"@), joined_path(selected, "League"@)];
    match file_name(selected) {
        Some(n) => if eq_ignore_case(n, "League"@) {
            inside.push(selected)
        } else {
            inside
        },
        None => inside,
    }
}

/// The folders that may hold a world's league files (see
/// `league_folder_candidates`).
pub fn league_folders(selected: &str) -> (r: Vec<String>)
    ensures
        string_views(r@) == league_folder_candidates(selected@),
{
    let mut r: Vec<String> = Vec::new();
    r.push(join_path(selected, "Data/League"));
    r.push(join_path(selected, "League"));
    let p = to_chars(selected);
    match name_of_path(p.as_slice()) {
        Some(n) => {
            let league = to_chars("League");
            if same_ignoring_case(n.as_slice(), league.as_slice()) {
                r.push(from_chars(p.as_slice()));
            }
        },
        None => {},
    }
    assert(string_views(r@) =~= league_folder_candidates(selected@));
    r
}

/// A file of the League folder with what reading it gave.
pub struct FolderFile {
    pub path: String,
    pub contents: Result<Vec<u8>, String>,
}

/// What a folder file holds, as plain values.
pub struct FolderFileModel {
    pub path: Seq<char>,
    pub contents: Result<Seq<u8>, Seq<char>>,
}

impl View for FolderFile {
    type V = FolderFileModel;

    open spec fn view(&self) -> FolderFileModel {
        FolderFileModel {
            path: self.path@,
            contents: match self.contents {
                Ok(b) => Ok(b@),
                Err(e) => Err(e@),
            },
        }
    }
}

/// The models of a sequence of folder files.
pub open spec fn folder_views(v: Seq<FolderFile>) -> Seq<FolderFileModel> {
    v.map_values(|f: FolderFile| f@)
}

/// Whether a path names a text file: its extension is `txt` up to ASCII
/// case.
pub open spec fn is_text_file(p: Seq<char>) -> bool {
    path_extension(p) matches Some(e) && eq_ignore_case(e, "txt"@)
}

/// Whether a path names the international file: its stem is `International
/// teams and tournaments` up to ASCII case.
pub open spec fn is_international_file(p: Seq<char>) -> bool {
    path_stem(p) matches Some(s) && eq_ignore_case(s, "International teams and tournaments"@)
}

/// Whether the file at `path` is one that a world is read from (a text
/// file).
pub fn has_text_extension(path: &str) -> (r: bool)
    ensures
        r == is_text_file(path@),
{
    let p = to_chars(path);
    match extension_of_path(p.as_slice()) {
        Some(e) => same_ignoring_case(e.as_slice(), to_chars("txt").as_slice()),
        None => false,
    }
}

/// The text files among the first `n` files, each keyed by its path in
/// lower case, in the order given.
pub open spec fn text_file_keys(fs: Seq<FolderFileModel>, n: nat) -> Seq<(Seq<char>, usize)>
    decreases n,
{
    if n == 0 {
        seq![]
    } else {
        let i = (n - 1) as int;
        text_file_keys(fs, (n - 1) as nat) + if is_text_file(fs[i].path) {
            seq![(unicode_lowercase(fs[i].path), i as usize)]
        } else {
            seq![]
        }
    }
}

proof fn lemma_text_file_key_indices(fs: Seq<FolderFileModel>, n: nat)
    ensures
        forall|i: int| 0 <= i < text_file_keys(fs, n).len() ==> (#[trigger] text_file_keys(fs, n)[i]).1 < n,
    decreases n,
{
    if n > 0 {
        lemma_text_file_key_indices(fs, (n - 1) as nat);
        let t = text_file_keys(fs, (n - 1) as nat);
        let r = text_file_keys(fs, n);
        assert forall|i: int| 0 <= i < r.len() implies (#[trigger] r[i]).1 < n by {
            if i < t.len() {
                assert(r[i] == t[i]);
            }
        }
    }
}

/// What the reader of a world has gathered so far.
pub struct LoadState {
    pub leagues: Seq<LeagueModel>,
    pub international_file: Option<Seq<char>>,
    pub international_bytes: Seq<u8>,
    pub countries: Seq<CountryModel>,
    pub warnings: Seq<Seq<char>>,
}

/// Each message of `ms` behind the path it is about.
pub open spec fn about_path(path: Seq<char>, ms: Seq<Seq<char>>) -> Seq<Seq<char>> {
    ms.map_values(|m: Seq<char>| path + ": "@ + m)
}

/// The reader after one file: the international file gives the country
/// blocks, any other the league it holds; the problems found are kept
/// behind the file's path.
pub open spec fn load_step(st: LoadState, f: FolderFileModel) -> LoadState {
    match f.contents {
        Err(e) => LoadState { warnings: st.warnings.push(f.path + ": "@ + e), ..st },
        Ok(bytes) => if is_international_file(f.path) {
            let (cs, ws) = parsed_countries(decoded_text(bytes));
            LoadState {
                countries: cs,
                international_bytes: bytes,
                warnings: st.warnings + about_path(f.path, ws),
                international_file: Some(f.path),
                ..st
            }
        } else {
            let l = LeagueModel { source_bytes: bytes, ..parsed_league(f.path, decoded_text(bytes)) };
            LoadState { leagues: st.leagues.push(l), warnings: st.warnings + about_path(f.path, l.warnings), ..st }
        },
    }
}

/// The reader after the files of `order` (indices into `fs`).
pub open spec fn load_fold(fs: Seq<FolderFileModel>, order: Seq<(Seq<char>, usize)>, start: LoadState) -> LoadState
    decreases order.len(),
{
    if order.len() == 0 {
        start
    } else {
        load_step(load_fold(fs, order.drop_last(), start), fs[order.last().1 as int])
    }
}

/// The world read from a League folder: `unreadable` holds the errors of
/// the folder's entries that could not be listed, `files` its files.
pub open spec fn loaded_world(directory: Seq<char>, unreadable: Seq<Seq<char>>, files: Seq<FolderFileModel>) -> Result<WorldModel, Seq<char>> {
    let start = LoadState {
        leagues: seq![],
        international_file: None,
        international_bytes: seq![],
        countries: seq![],
        warnings: unreadable.map_values(|e: Seq<char>| "Impossibile leggere una voce: "@ + e),
    };
    let st = load_fold(files, sorted_by_key(text_file_keys(files, files.len())), start);
    if st.leagues.len() == 0 && st.international_file is None {
        Err("Nessun file lega leggibile in "@ + directory + ". "@ + joined(st.warnings))
    } else {
        Ok(WorldModel {
            international_bytes: st.international_bytes,
            retained_clubs: Set::empty(),
            deleted_clubs: Set::empty(),
            league_directory: directory,
            leagues: st.leagues,
            international_file: st.international_file,
            international_countries: st.countries,
            warnings: st.warnings,
        })
    }
}

fn push_about(ws: &mut Vec<String>, path: &[char], ms: &Vec<String>)
    ensures
        string_views(final(ws)@) == string_views(old(ws)@) + about_path(path@, string_views(ms@)),
{
    let ghost start = string_views(ws@);
    let ghost mv = string_views(ms@);
    let mut i: usize = 0;
    assert(about_path(path@, mv).take(0) =~= seq![]);
    assert(start + seq![] =~= start);
    while i < ms.len()
        invariant
            i <= ms@.len(),
            mv == string_views(ms@),
            string_views(ws@) == start + about_path(path@, mv).take(i as int),
        decreases ms@.len() - i,
    {
        let mut line = copy_chars(path);
        push_str(&mut line, ": ");
        push_str(&mut line, ms[i].as_str());
        assert(line@ == path@ + ": "@ + mv[i as int]);
        let ghost before = string_views(ws@);
        ws.push(from_chars(line.as_slice()));
        assert(string_views(ws@) =~= before.push(line@));
        assert(about_path(path@, mv).take(i + 1) =~= about_path(path@, mv).take(i as int).push(line@));
        i += 1;
    }
    assert(about_path(path@, mv).take(i as int) =~= about_path(path@, mv));
}

/// The world read from the files of a League folder (the computing part of
/// opening a world): see `loaded_world`.
pub fn assemble_world(directory: String, unreadable: Vec<String>, files: Vec<FolderFile>) -> (r: Result<World, String>)
    ensures
        match r {
            Ok(w) => loaded_world(directory@, string_views(unreadable@), folder_views(files@)) == Ok::<WorldModel, Seq<char>>(w@),
            Err(e) => loaded_world(directory@, string_views(unreadable@), folder_views(files@)) == Err::<WorldModel, Seq<char>>(e@),
        },
{
    let ghost fv = folder_views(files@);
    let ghost uv = string_views(unreadable@);
    // the warnings of the entries that could not be listed
    let mut warnings: Vec<String> = Vec::new();
    let mut i: usize = 0;
    while i < unreadable.len()
        invariant
            i <= unreadable@.len(),
            uv == string_views(unreadable@),
            string_views(warnings@) == uv.take(i as int).map_values(|e: Seq<char>| "Impossibile leggere una voce: "@ + e),
        decreases unreadable@.len() - i,
    {
        let mut line = to_chars("Impossibile leggere una voce: ");
        push_str(&mut line, unreadable[i].as_str());
        assert(uv[i as int] == unreadable@[i as int]@);
        assert(line@ == "Impossibile leggere una voce: "@ + uv[i as int]);
        let ghost before = string_views(warnings@);
        warnings.push(from_chars(line.as_slice()));
        assert(string_views(warnings@) =~= before.push(line@));
        assert(uv.take(i + 1).map_values(|e: Seq<char>| "Impossibile leggere una voce: "@ + e) =~= uv.take(
            i as int,
        ).map_values(|e: Seq<char>| "Impossibile leggere una voce: "@ + e).push(line@));
        i += 1;
    }
    assert(uv.take(i as int) =~= uv);
    // the text files, keyed by their lower-case paths
    let mut keyed: Vec<(Vec<char>, usize)> = Vec::new();
    let mut k: usize = 0;
    assert(keyed_views(keyed@) =~= text_file_keys(fv, 0));
    while k < files.len()
        invariant
            k <= files@.len(),
            fv == folder_views(files@),
            keyed_views(keyed@) == text_file_keys(fv, k as nat),
        decreases files@.len() - k,
    {
        assert(fv[k as int] == files@[k as int]@);
        let ghost before = keyed_views(keyed@);
        if has_text_extension(files[k].path.as_str()) {
            let low = to_unicode_lowercase(files[k].path.as_str());
            keyed.push((string_chars(&low), k));
            assert(keyed_views(keyed@) =~= before.push((unicode_lowercase(fv[k as int].path), k)));
        } else {
            assert(before + seq![] =~= before);
        }
        k += 1;
    }
    let order = sort_by_text_key(&keyed);
    let ghost ov = keyed_views(order@);
    proof {
        lemma_text_file_key_indices(fv, fv.len());
        lemma_sorted_by_key_items(text_file_keys(fv, fv.len()));
        assert forall|x: int| 0 <= x < ov.len() implies (#[trigger] ov[x]).1 < fv.len() by {
            let tk = text_file_keys(fv, fv.len());
            assert(tk.contains(ov[x]));
            let m = choose|m: int| 0 <= m < tk.len() && tk[m] == ov[x];
            assert(tk[m].1 < fv.len());
        }
    }
    let mut leagues: Vec<LeagueFile> = Vec::new();
    let mut international_file: Option<String> = None;
    let mut international_bytes: Vec<u8> = Vec::new();
    let mut countries: Vec<InternationalCountry> = Vec::new();
    let ghost start = LoadState {
        leagues: seq![],
        international_file: None,
        international_bytes: seq![],
        countries: seq![],
        warnings: string_views(warnings@),
    };
    assert(league_views(leagues@) =~= seq![]);
    assert(country_views(countries@) =~= seq![]);
    assert(ov.take(0) =~= seq![]);
    let mut j: usize = 0;
    while j < order.len()
        invariant
            j <= order@.len(),
            ov == keyed_views(order@),
            fv == folder_views(files@),
            ov == sorted_by_key(text_file_keys(fv, fv.len())),
            forall|x: int| 0 <= x < ov.len() ==> (#[trigger] ov[x]).1 < fv.len(),
            load_fold(fv, ov.take(j as int), start) == (LoadState {
                leagues: league_views(leagues@),
                international_file: match international_file {
                    Some(p) => Some(p@),
                    None => None,
                },
                international_bytes: international_bytes@,
                countries: country_views(countries@),
                warnings: string_views(warnings@),
            }),
        decreases order@.len() - j,
    {
        let idx = order[j].1;
        assert(ov[j as int].1 == idx);
        assert(ov.take(j + 1).drop_last() =~= ov.take(j as int));
        assert(ov.take(j + 1).last() == ov[j as int]);
        let file = &files[idx];
        assert(fv[idx as int] == file@);
        let path = to_chars(file.path.as_str());
        match &file.contents {
            Err(e) => {
                let mut line = copy_chars(path.as_slice());
                push_str(&mut line, ": ");
                push_str(&mut line, e.as_str());
                let ghost before = string_views(warnings@);
                warnings.push(from_chars(line.as_slice()));
                assert(string_views(warnings@) =~= before.push(line@));
            },
            Ok(bytes) => {
                let is_intl = match stem_of_path(path.as_slice()) {
                    Some(s) => same_ignoring_case(s.as_slice(), to_chars("International teams and tournaments").as_slice()),
                    None => false,
                };
                let text = decode_text(bytes.as_slice());
                if is_intl {
                    let (cs, ws) = parse_international_countries(text.as_str());
                    countries = cs;
                    international_bytes = copy_bytes(bytes);
                    push_about(&mut warnings, path.as_slice(), &ws);
                    international_file = Some(copy_string(&file.path));
                } else {
                    let league = read_league(file.path.as_str(), copy_bytes(bytes));
                    push_about(&mut warnings, path.as_slice(), &league.warnings);
                    let ghost before = league_views(leagues@);
                    leagues.push(league);
                    assert(league_views(leagues@) =~= before.push(league@));
                }
            },
        }
        j += 1;
    }
    assert(ov.take(j as int) =~= ov);
    if leagues.len() == 0 && international_file.is_none() {
        let mut msg = to_chars("Nessun file lega leggibile in ");
        push_str(&mut msg, directory.as_str());
        push_str(&mut msg, ". ");
        let all = join_lines(&warnings);
        push_all(&mut msg, all.as_slice());
        return Err(from_chars(msg.as_slice()));
    }
    let w = World {
        international_bytes,
        retained_clubs: ClubSet::new(),
        deleted_clubs: ClubSet::new(),
        country_names: CountryNames,
        league_directory: directory,
        leagues,
        international_file,
        international_countries: countries,
        warnings,
    };
    Ok(w)
}

/// A copy of a byte vector.
pub fn copy_bytes(v: &Vec<u8>) -> (r: Vec<u8>)
    ensures
        r@ == v@,
{
    let mut r: Vec<u8> = Vec::new();
    let mut i: usize = 0;
    while i < v.len()
        invariant
            i <= v@.len(),
            r@ == v@.take(i as int),
        decreases v@.len() - i,
    {
        r.push(v[i]);
        i += 1;
        assert(r@ =~= v@.take(i as int));
    }
    assert(v@.take(i as int) =~= v@);
    r
}

} // verus!
