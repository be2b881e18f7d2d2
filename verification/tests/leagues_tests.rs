use world_editor::country_display::CountryNames;
use world_editor::encoding::decode_text;
use world_editor::league_save::render;
use world_editor::leagues::{parse_international_countries, parse_league, ClubSet};
use world_editor::world_load::{assemble_world, FolderFile};

#[test]
fn country_name_uses_the_file_identity() {
    let names = CountryNames;
    assert_eq!(names.name("Italy", "Italy"), "Italy");
    assert_eq!(names.name("Internal name", "San Marino"), "San Marino");
}

#[test]
fn moving_across_divisions_swaps_boundary_clubs_and_preserves_counts() {
    let mut league = parse_league(
        "Test.txt",
        "! Country \"Test\"\n: A\n+ division 1\nA1\nA2\nA3\n: B\n+ division 2\nB1\nB2\nB3\n",
    );
    assert_eq!(league.move_club(1, 0, true), Some((0, 2)));
    assert_eq!(league.divisions[0].teams, ["A1", "A2", "B1"]);
    assert_eq!(league.divisions[1].teams, ["A3", "B2", "B3"]);
    assert_eq!(league.move_club(0, 2, false), Some((1, 0)));
    assert_eq!(league.divisions[0].teams, ["A1", "A2", "A3"]);
    assert_eq!(league.move_club(0, 0, true), None);
    assert_eq!(league.move_club(1, 2, false), None);
    assert!(league.swap_clubs((0, 0), (1, 2)));
    assert_eq!(league.divisions[0].teams[0], "B3");
    assert_eq!(league.divisions[1].teams[2], "A1");
    assert!(!league.swap_clubs((99, 0), (0, 0)));
}

#[test]
fn international_club_matches_all_divisions_without_guessing() {
    let league = parse_league(
        "Test.txt",
        "! Country \"Test\"\n: First\n+ division 1\nAlpha\nDuplicate\n: Second\n+ division 2\nBeta\nDuplicate\n",
    );
    assert_eq!(league.club_locations("Beta"), vec![(1, 0)]);
    assert_eq!(league.club_locations("Missing"), vec![]);
    assert_eq!(league.club_locations("Duplicate"), vec![(0, 1), (1, 1)]);
    assert_eq!(league.club_locations("Alph"), vec![]);
    assert_eq!(league.club_locations("alpha"), vec![]);
}

#[test]
fn division_edit_validates_and_preserves_other_divisions_and_team_order() {
    let mut league = parse_league(
        "Test.txt",
        "! Country \"Test\"\n: First\n+ division 1\n+ promotions 0\n+ relegations 1\n+ reputation 10\nZulu\nAlpha\nBeta\n: Second\n+ division 2\n+ promotions 1\n+ relegations 0\n+ reputation 5\nOther\n",
    );
    let original = league.divisions.clone();
    league.divisions[0].name = "New name".into();
    league.divisions[0].reputation = Some(12);
    assert!(league.division_issues(0).is_empty());
    assert_eq!(league.divisions[0].teams, original[0].teams);
    assert_eq!(league.divisions[1], original[1]);
    league.divisions[0].level = Some(2);
    assert!(league
        .division_issues(0)
        .iter()
        .any(|message| message.contains("occupato")));
    league.divisions[0].name.clear();
    assert!(league
        .division_issues(0)
        .iter()
        .any(|message| message.contains("Nome")));
    league.divisions = original.clone();
    assert_eq!(league.divisions, original);
}

#[test]
fn preserves_order_and_separates_cup_properties() {
    let league = parse_league(
        "Example.txt",
        "# comment\n! Country \"Example\"\n: First\n+ division 1\n+ reputation 8\nZulu\nAlpha\n* Cup\n+ reputation 20\n+ round 1 \"Final\" 1-2 47\n: Second\n+ division 2\nBeta\n",
    );
    assert_eq!(league.divisions.len(), 2);
    assert_eq!(league.divisions[0].teams, ["Zulu", "Alpha"]);
    assert_eq!(league.divisions[0].reputation, Some(8));
    assert_eq!(league.divisions[1].name, "Second");
    assert!(league.warnings.is_empty(), "{:?}", league.warnings);
}

#[test]
fn decodes_legacy_accents_and_utf8_bom() {
    assert_eq!(decode_text(b"Li\xe8ge"), "Liège");
    assert_eq!(decode_text(b"\xef\xbb\xbfItaly"), "Italy");
}

#[test]
fn reports_invalid_values_and_unknown_instructions_with_line_numbers() {
    let league = parse_league(
        "Bad.txt",
        "! Country \"Test\"\n: First\n+ division invalid\n+ mystery 5\nClub\n",
    );
    assert!(league
        .warnings
        .iter()
        .any(|warning| warning.contains("riga 3")));
    assert!(league
        .warnings
        .iter()
        .any(|warning| warning.contains("riga 4")));
    assert_eq!(league.divisions[0].level, None);
    assert_eq!(league.divisions[0].teams, ["Club"]);
}

#[test]
fn rejects_folder_without_leagues() {
    assert!(assemble_world("editor".to_string(), Vec::new(), Vec::new()).is_err());
}

#[test]
fn international_blocks_ignore_comments_and_cups_and_accept_both_reputation_prefixes() {
    let (countries, warnings) = parse_international_countries(
        "#! AdditionalCountry \"Ignored\"\n! AdditionalCountry \"One\"\n! TempNames \"first names.txt\" \"last names.txt\"\n+ reputation 4\nZulu\nAlpha\n! AdditionalCountry \"Two\"\n! reputation 9\nBeta\n* Cup\n+ reputation 20\n+ add 1 from \"One\"\nCup team\n",
    );
    assert!(warnings.is_empty(), "{warnings:?}");
    assert_eq!(countries.len(), 2);
    assert_eq!(countries[0].clubs, ["Zulu", "Alpha"]);
    assert_eq!(countries[0].name_files, ["first names.txt", "last names.txt"]);
    assert_eq!(countries[0].reputation, Some(4));
    assert_eq!(countries[1].reputation, Some(9));
    assert_eq!(countries[1].clubs, ["Beta"]);
}

#[test]
fn invalid_country_does_not_append_clubs_to_previous_country() {
    let (countries, warnings) = parse_international_countries(
        "! AdditionalCountry \"Valid\"\nClub\n! AdditionalCountry Invalid\nWrong club\n",
    );
    assert_eq!(countries[0].clubs, ["Club"]);
    assert_eq!(warnings.len(), 1);
    assert!(warnings[0].contains("riga 3"));
}

#[test]
fn opening_reads_text_files_in_lower_case_order_and_keeps_the_international_file() {
    let files = vec![
        FolderFile {
            path: "Data/League/italy.txt".to_string(),
            contents: Ok(b"! Country \"Italy\"\n: Serie A\n+ division 1\nInter\nNapoli\nRoma\n".to_vec()),
        },
        FolderFile {
            path: "Data/League/Belgium.TXT".to_string(),
            contents: Ok(b"! Country \"Belgium\"\n: Pro League\n+ division 1\nLi\xe8ge\nGent\nGenk\n".to_vec()),
        },
        FolderFile {
            path: "Data/League/notes.md".to_string(),
            contents: Ok(b"not a league".to_vec()),
        },
        FolderFile {
            path: "Data/League/International teams and tournaments.txt".to_string(),
            contents: Ok(b"! AdditionalCountry \"San Marino\"\nCailunge\n".to_vec()),
        },
        FolderFile {
            path: "Data/League/Broken.txt".to_string(),
            contents: Err("permission denied".to_string()),
        },
    ];
    let world = assemble_world("Data/League".to_string(), vec!["bad entry".to_string()], files).unwrap();
    assert_eq!(world.leagues.len(), 2);
    assert_eq!(world.leagues[0].country, "Belgium");
    assert_eq!(world.leagues[0].divisions[0].teams[0], "Liège");
    assert_eq!(world.leagues[1].country, "Italy");
    assert_eq!(world.international_countries[0].clubs, ["Cailunge"]);
    assert_eq!(
        world.international_file.as_deref(),
        Some("Data/League/International teams and tournaments.txt")
    );
    assert_eq!(world.warnings[0], "Impossibile leggere una voce: bad entry");
    assert_eq!(world.warnings[1], "Data/League/Broken.txt: permission denied");
    assert!(world.retained_clubs.is_empty() && world.deleted_clubs.is_empty());
}

#[test]
fn an_empty_folder_reports_the_folder_and_the_problems() {
    let error = assemble_world("Data/League".to_string(), vec!["x".to_string()], Vec::new()).unwrap_err();
    assert_eq!(error, "Nessun file lega leggibile in Data/League. Impossibile leggere una voce: x");
}

#[test]
fn swapping_twice_and_moving_back_restore_the_divisions() {
    let text = "! Country \"Test\"\n: A\n+ division 1\nA1\nA2\nA3\n: B\n+ division 2\nB1\nB2\nB3\n";
    let mut league = parse_league("Test.txt", text);
    let original = league.divisions.clone();
    assert!(league.swap_clubs((0, 1), (1, 2)));
    assert_eq!(league.divisions[0].teams, ["A1", "B3", "A3"]);
    assert!(league.swap_clubs((0, 1), (1, 2)));
    assert_eq!(league.divisions, original);
    let target = league.move_club(0, 2, false).unwrap();
    assert_eq!(target, (1, 0));
    assert_eq!(league.divisions[1].teams[0], "A3");
    assert_eq!(league.move_club(target.0, target.1, true), Some((0, 2)));
    assert_eq!(league.divisions, original);
    assert!(!league.swap_clubs((0, 0), (0, 0)));
}

#[test]
fn released_clubs_are_kept_in_name_order() {
    let mut set = ClubSet::new();
    set.insert("Zulu".to_string());
    set.insert("Alpha".to_string());
    set.insert("Mike".to_string());
    set.insert("Alpha".to_string());
    assert_eq!(set.names(), &vec!["Alpha".to_string(), "Mike".to_string(), "Zulu".to_string()]);
    set.remove("Mike");
    assert!(!set.contains("Mike"));
    assert_eq!(set.names().len(), 2);
    set.clear();
    assert!(set.is_empty());
}

#[test]
fn a_utf8_league_with_a_byte_order_mark_is_written_back_unchanged() {
    let text = "! Country \"Test\"\r\n: One\r\n+ division 1\r\n+ promotions 0\r\n+ relegations 0\r\nA\r\nB\r\nC\r\n";
    let bytes = [vec![0xEF, 0xBB, 0xBF], text.as_bytes().to_vec()].concat();
    let mut league = parse_league("Test.txt", &decode_text(&bytes));
    league.source_bytes = bytes.clone();
    assert_eq!(render(&league).unwrap(), bytes);
}
