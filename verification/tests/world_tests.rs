use world_editor::leagues::{parse_international_countries, parse_league, LeagueFile, World};
use world_editor::world_load::{assemble_world, FolderFile};
use world_editor::world_save::{
    check_changes, files_to_check, mark_saved, prepare, render_international, sync_changed_leagues,
    DiskFile,
};

const ITALY: &str = "! Country \"Italy\"\n: Serie A\n+ division 1\n+ promotions 0\n+ relegations 1\n+ reputation 18\nInter\nNapoli\nRoma\n: Serie B\n+ division 2\n+ promotions 1\n+ relegations 0\n+ reputation 12\nBari\nPisa\nPalermo\n";
const INTERNATIONAL: &str = "! AdditionalCountry \"Italy\"\nInter\nNapoli\n! AdditionalCountry \"San Marino\"\n+ reputation 4\nCailunge\nDomagnane\nFaetane\n";

fn world() -> World {
    let files = vec![
        FolderFile {
            path: "Data/League/Italy.txt".to_string(),
            contents: Ok(ITALY.as_bytes().to_vec()),
        },
        FolderFile {
            path: "Data/League/International teams and tournaments.txt".to_string(),
            contents: Ok(INTERNATIONAL.as_bytes().to_vec()),
        },
    ];
    assemble_world("Data/League".to_string(), Vec::new(), files).unwrap()
}

fn disk(world: &World, saved: &World, teams: &Option<String>, missing: &[&str]) -> Vec<DiskFile> {
    files_to_check(world, saved, teams)
        .into_iter()
        .map(|path| {
            let exists = !missing.contains(&path.as_str());
            let contents = if path.ends_with("Italy.txt") {
                Ok(ITALY.as_bytes().to_vec())
            } else if path.ends_with("tournaments.txt") {
                Ok(INTERNATIONAL.as_bytes().to_vec())
            } else if exists {
                Ok(b"! Name \"Team\"\n".to_vec())
            } else {
                Err("No such file".to_string())
            };
            DiskFile { path, exists, contents }
        })
        .collect()
}

#[test]
fn an_unchanged_world_needs_no_file_change() {
    let w = world();
    let saved = w.clone();
    let teams = Some("Data/Team".to_string());
    let changes = prepare(&w, &saved, &teams, &disk(&w, &saved, &teams, &[])).unwrap();
    assert!(changes.is_empty());
}

#[test]
fn a_save_rewrites_the_league_but_not_the_international_file() {
    let saved = world();
    let mut w = saved.clone();
    assert!(w.leagues[0].swap_clubs((0, 0), (0, 2)));
    sync_changed_leagues(&mut w, &saved).unwrap();
    assert_eq!(w.international_countries[0].clubs, ["Roma", "Napoli"]);
    let teams = Some("Data/Team".to_string());
    let changes = prepare(&w, &saved, &teams, &disk(&w, &saved, &teams, &[])).unwrap();
    assert_eq!(changes.len(), 1);
    assert_eq!(changes[0].path(), "Data/League/Italy.txt");
    assert_eq!(changes[0].before().as_deref(), Some(ITALY.as_bytes()));
    let written = String::from_utf8(changes[0].after().clone().unwrap()).unwrap();
    assert_eq!(written, ITALY.replace("Inter\nNapoli\nRoma", "Roma\nNapoli\nInter"));
    assert!(check_changes(&changes, &disk(&w, &saved, &teams, &[])).is_ok());
    let international =
        String::from_utf8(render_international(INTERNATIONAL.as_bytes(), &w.international_countries).unwrap())
            .unwrap();
    assert_eq!(international, INTERNATIONAL.replace("Inter\nNapoli", "Roma\nNapoli"));
    let (countries, warnings) = parse_international_countries(&international);
    assert!(warnings.is_empty());
    assert_eq!(countries[0].clubs, ["Roma", "Napoli"]);
}

#[test]
fn a_file_changed_on_disk_stops_the_save() {
    let saved = world();
    let mut w = saved.clone();
    w.leagues[0].divisions[0].reputation = Some(19);
    let teams = Some("Data/Team".to_string());
    let mut found = disk(&w, &saved, &teams, &[]);
    found[0].contents = Ok(b"something else".to_vec());
    assert_eq!(
        prepare(&w, &saved, &teams, &found).unwrap_err(),
        "Data/League/Italy.txt è cambiato esternamente. Riapri il mondo prima di salvare."
    );
    let changes = prepare(&w, &saved, &teams, &disk(&w, &saved, &teams, &[])).unwrap();
    assert_eq!(
        check_changes(&changes, &found).unwrap_err(),
        "Data/League/Italy.txt è cambiato esternamente; nessun file è stato salvato."
    );
}

#[test]
fn a_removed_league_deletes_its_file_and_its_unnamed_clubs() {
    let saved = world();
    let mut w = saved.clone();
    w.remove_league(0, true).unwrap();
    assert!(w.deleted_clubs.contains("Bari"));
    assert!(!w.deleted_clubs.contains("Inter"));
    assert!(w.retained_clubs.contains("Inter"));
    let teams = Some("Data/Team".to_string());
    let changes = prepare(&w, &saved, &teams, &disk(&w, &saved, &teams, &["Data/Team/Pisa.txt"])).unwrap();
    assert_eq!(changes[0].path(), "Data/League/Italy.txt");
    assert!(changes[0].after().is_none());
    let deleted: Vec<&str> = changes[1..].iter().map(|c| c.path().as_str()).collect();
    assert!(deleted.contains(&"Data/Team/Bari.txt"));
    assert!(deleted.contains(&"Data/Team/Roma.txt"));
    assert!(!deleted.contains(&"Data/Team/Pisa.txt"));
    assert!(!deleted.contains(&"Data/Team/Inter.txt"));
    assert_eq!(
        prepare(&w, &saved, &None, &disk(&w, &saved, &None, &[])).unwrap_err(),
        "Cartella Data non disponibile."
    );
}

#[test]
fn marking_saved_reads_the_files_back_and_forgets_released_clubs() {
    let saved = world();
    let mut w = saved.clone();
    w.remove_club_from_division(0, 1, 0, true).unwrap();
    assert!(w.deleted_clubs.contains("Bari"));
    let edited = ITALY.replace("Bari\n", "");
    let found = vec![
        DiskFile {
            path: "Data/League/Italy.txt".to_string(),
            exists: true,
            contents: Ok(edited.as_bytes().to_vec()),
        },
        DiskFile {
            path: "Data/League/International teams and tournaments.txt".to_string(),
            exists: true,
            contents: Err("busy".to_string()),
        },
    ];
    mark_saved(&mut w, &found);
    assert_eq!(w.leagues[0].divisions[1].teams, ["Pisa", "Palermo"]);
    assert_eq!(w.leagues[0].source_bytes, edited.as_bytes());
    assert!(w.deleted_clubs.is_empty() && w.retained_clubs.is_empty());
    assert_eq!(w.international_countries, saved.international_countries);
}

#[test]
fn clubs_without_a_place_are_listed_by_name() {
    let w = world();
    let files = vec![
        "Data/Team/zeta.txt".to_string(),
        "Data/Team/Inter.txt".to_string(),
        "Data/Team/Alpha.TXT".to_string(),
        "Data/Team/italy.txt".to_string(),
        "Data/Team/notes.md".to_string(),
        "Data/Team/beta.txt".to_string(),
    ];
    assert_eq!(w.neutral_clubs(&files), ["Alpha", "beta", "zeta"]);
}

#[test]
fn passages_between_levels_stay_in_agreement() {
    let mut league: LeagueFile = parse_league("Italy.txt", ITALY);
    league.divisions[1].promotions = Some(3);
    league.link_passages(1, true, false);
    assert_eq!(league.divisions[0].relegations, Some(3));
    league.divisions[0].relegations = Some(2);
    league.link_passages(0, false, true);
    assert_eq!(league.divisions[1].promotions, Some(2));
}

#[test]
fn removing_a_club_out_of_range_is_refused() {
    let mut w = world();
    assert_eq!(w.remove_club_from_division(0, 0, 9, false).unwrap_err(), "Club non trovato");
    assert_eq!(w.remove_club_from_division(3, 0, 0, false).unwrap_err(), "Club non trovato");
    w.remove_club_from_division(0, 0, 1, false).unwrap();
    assert_eq!(w.leagues[0].divisions[0].teams, ["Inter", "Roma"]);
    assert!(w.retained_clubs.contains("Napoli"));
}

#[test]
fn synchronising_twice_changes_nothing_more() {
    let saved = world();
    let mut w = saved.clone();
    w.leagues[0].move_club(0, 1, true).unwrap();
    w.sync_international(0).unwrap();
    let once = w.international_countries.clone();
    w.sync_international(0).unwrap();
    assert_eq!(w.international_countries, once);
    assert_eq!(once[0].clubs, ["Napoli", "Inter"]);
}

#[test]
fn a_new_league_takes_its_country_block_and_keeps_it_in_step() {
    let mut world = world();
    let index = world
        .create_league("San Marino", "Campionato", Vec::new(), false)
        .unwrap();
    assert_eq!(
        world.leagues[index].divisions[0].teams,
        ["Cailunge", "Domagnane", "Faetane"]
    );
    assert!(world
        .create_league("San Marino", "Campionato", Vec::new(), false)
        .is_err());
    world
        .add_division(
            index,
            "Seconda",
            vec!["New A".into(), "New B".into(), "New C".into()],
        )
        .unwrap();
    world.add_club_to_division(index, 0, "Nuovo club").unwrap();
    assert!(world.add_club_to_division(index, 0, "Nuovo club").is_err());
    world.leagues[index].swap_clubs((0, 0), (1, 0));
    world.sync_international(index).unwrap();
    assert_eq!(
        world
            .international_countries
            .iter()
            .find(|country| country.name == "San Marino")
            .unwrap()
            .clubs,
        ["New A", "Domagnane", "Faetane"]
    );
    assert!(world.remove_division(index, 0, true).is_err());
    world.remove_division(index, 1, true).unwrap();
    assert_eq!(world.leagues[index].divisions[0].relegations, Some(0));
    assert!(world.remove_division(index, 0, true).is_err());
    world.remove_league(index, true).unwrap();
    assert!(!world.deleted_clubs.contains("New A"));
    assert!(world.deleted_clubs.contains("Cailunge"));
}

#[test]
fn a_league_has_room_for_twelve_divisions() {
    let mut world = world();
    assert!(world.has_room_for_division(0));
    assert!(!world.has_room_for_division(5));
    let extra = world.leagues[0].divisions[1].clone();
    while world.leagues[0].divisions.len() < 12 {
        world.leagues[0].divisions.push(extra.clone());
    }
    assert!(!world.has_room_for_division(0));
}
