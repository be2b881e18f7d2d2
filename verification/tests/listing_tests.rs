use world_editor::league_dialogs::{Creation, CreationKind};
use world_editor::leagues::{parse_league, World};
use world_editor::rosters::{dedup_names, holds_text, sorted_by_lowercase};
use world_editor::teams::step_colour;
use world_editor::world_load::{assemble_world, league_folders, FolderFile};

const ITALY: &str = "! Country \"Italy\"\n: Serie A\n+ division 1\n+ reputation 18\nInter\nNapoli\nRoma\n: Serie B\n+ division 2\n+ reputation 12\nbari\nRoma\nPalermo\n: Serie C\nAscoli\n";
const INTERNATIONAL: &str = "! AdditionalCountry \"Italy\"\nInter\nNapoli\n! AdditionalCountry \"San Marino\"\n+ reputation 4\nFaetane\nCailunge\nDomagnane\n! AdditionalCountry \"andorra\"\nSanta Coloma\n";

fn world() -> World {
    let files = vec![
        FolderFile {
            path: "Data/League/Italy.txt".to_string(),
            contents: Ok(ITALY.as_bytes().to_vec()),
        },
        FolderFile {
            path: "Data/League/International teams and tournaments.txt".to_string(),
            contents: Ok(INTERNATIONAL.as_bytes().to_vec()),
        },
    ];
    assemble_world("Data/League".to_string(), Vec::new(), files).unwrap()
}

fn chars(s: &str) -> Vec<char> {
    s.chars().collect()
}

#[test]
fn leagues_are_listed_by_identity_in_lower_case() {
    let mut world = world();
    world.leagues = vec![
        parse_league("Data/League/spain.txt", "! Country \"Spain\"\n: Liga\nBetis\n"),
        parse_league("Data/League/Austria.txt", "! Country \"Austria\"\n: Bundesliga\nRapid\n"),
        parse_league("", "! Country \"Belgium\"\n: Pro League\nGenk\n"),
    ];
    assert_eq!(world.leagues[2].identity(), "Belgium");
    assert_eq!(world.leagues[1].identity(), "Austria");
    assert_eq!(world.league_order(), vec![1, 2, 0]);
    assert_eq!(world.leagues_by_country(), vec![1, 2, 0]);
}

#[test]
fn country_blocks_are_listed_by_name_in_lower_case() {
    let world = world();
    assert_eq!(world.country_order(), vec![2, 0, 1]);
    assert_eq!(world.country_block_for("ITALY"), Some(0));
    assert_eq!(world.country_block_for("France"), None);
}

#[test]
fn the_search_looks_at_name_country_and_file_name() {
    let world = world();
    assert!(world.league_shown(0, "ITA"));
    assert!(world.league_shown(0, ""));
    assert!(world.league_shown(0, ".txt"));
    assert!(!world.league_shown(0, "spain"));
    assert!(!world.country_shown(0, "ita"));
    assert!(world.country_shown(1, "marino"));
    assert!(world.country_shown(2, ""));
    assert!(!world.country_shown(2, "marino"));
}

#[test]
fn the_team_list_is_sorted_once_and_filtered() {
    let world = world();
    let all = world.team_list(Some(0), None, "").unwrap();
    assert_eq!(all, ["Ascoli", "bari", "Inter", "Napoli", "Palermo", "Roma"]);
    let some = world.team_list(Some(0), None, "A").unwrap();
    assert_eq!(some, ["Ascoli", "bari", "Napoli", "Palermo", "Roma"]);
    let none = world.team_list(Some(0), None, "zz").unwrap();
    assert!(none.is_empty());
    let country = world.team_list(None, Some(1), "").unwrap();
    assert_eq!(country, ["Cailunge", "Domagnane", "Faetane"]);
    let fallback = world.team_list(Some(7), Some(2), "").unwrap();
    assert_eq!(fallback, ["Santa Coloma"]);
    assert_eq!(world.team_list(None, None, ""), None);
    assert_eq!(world.team_list(Some(9), Some(9), ""), None);
}

#[test]
fn a_team_without_a_file_takes_the_reputation_of_its_place() {
    let world = world();
    assert_eq!(world.default_reputation(Some(0), None, "Roma"), 18);
    assert_eq!(world.default_reputation(Some(0), None, "Palermo"), 12);
    assert_eq!(world.default_reputation(Some(0), None, "Ascoli"), 10);
    assert_eq!(world.default_reputation(Some(0), None, "Juventus"), 10);
    assert_eq!(world.default_reputation(None, Some(1), "Faetane"), 4);
    assert_eq!(world.default_reputation(None, Some(0), "Inter"), 5);
    assert_eq!(world.default_reputation(None, None, "Inter"), 5);
}

#[test]
fn colours_step_round_the_palette() {
    let palette = vec!["white".to_string(), "Black".to_string(), "red".to_string()];
    assert_eq!(step_colour(&palette, "BLACK", true), 2);
    assert_eq!(step_colour(&palette, "BLACK", false), 0);
    assert_eq!(step_colour(&palette, "red", true), 0);
    assert_eq!(step_colour(&palette, "white", false), 2);
    assert_eq!(step_colour(&palette, "blue", false), 2);
    assert_eq!(step_colour(&palette, "blue", true), 1);
    assert_eq!(step_colour(&["white".to_string()].to_vec(), "white", true), 0);
}

#[test]
fn the_creation_window_reads_one_club_per_line() {
    let creation = Creation {
        kind: CreationKind::League,
        country: "Malta".to_string(),
        division_name: "Premier".to_string(),
        clubs: "  Valletta \n\n\t\nBirkirkara\r\nHibernians".to_string(),
    };
    assert_eq!(creation.club_list(), ["Valletta", "Birkirkara", "Hibernians"]);
    assert!(Creation::default().club_list().is_empty());
}

#[test]
fn divisions_are_listed_by_level_with_unlevelled_ones_first() {
    let league = parse_league(
        "Data/League/Italy.txt",
        "! Country \"Italy\"\n: B\n+ division 2\nBari\n: C\nPisa\n: A\n+ division 1\nInter\n: B2\n+ division 2\nLecce\n",
    );
    assert_eq!(league.divisions_by_level(), vec![1, 2, 0, 3]);
}

#[test]
fn text_search_and_list_helpers() {
    assert!(holds_text(&chars("palermo"), &chars("erm")));
    assert!(holds_text(&chars("palermo"), &chars("")));
    assert!(holds_text(&chars("palermo"), &chars("palermo")));
    assert!(!holds_text(&chars("pal"), &chars("palermo")));
    assert!(!holds_text(&chars("palermo"), &chars("mop")));
    let names = vec!["b".to_string(), "A".to_string(), "a".to_string(), "B".to_string()];
    assert_eq!(sorted_by_lowercase(&names), ["A", "a", "b", "B"]);
    let runs = vec!["x".to_string(), "x".to_string(), "y".to_string(), "x".to_string()];
    assert_eq!(dedup_names(&runs), ["x", "y", "x"]);
}

#[test]
fn a_world_is_looked_for_in_data_league_league_or_the_folder_itself() {
    assert_eq!(league_folders("Games/CS"), ["Games/CS/Data/League", "Games/CS/League"]);
    assert_eq!(league_folders("Games/CS/"), ["Games/CS/Data/League", "Games/CS/League"]);
    assert_eq!(
        league_folders("Games/CS/Data/league"),
        [
            "Games/CS/Data/league/Data/League",
            "Games/CS/Data/league/League",
            "Games/CS/Data/league"
        ]
    );
    assert_eq!(league_folders(""), ["Data/League", "League"]);
}
