use world_editor::teams::{
    colour_entries, colour_for, colour_names_in, nationality_from, parse_player, parse_team,
    player_file_name, render_player, render_team, roster_position, PlayerProfile, TeamProfile,
};

#[test]
fn missing_team_file_uses_white_kits_and_the_supplied_reputation() {
    let profile = TeamProfile::defaults(7);
    assert!(!profile.file_exists);
    assert_eq!(profile.reputation, 7);
    assert!(profile.kits.iter().flatten().all(|colour| colour == "white"));
}

#[test]
fn parses_team_colours_and_reputation() {
    let profile = parse_team(b"! reputation 18\n! 1 shirt red\n! 2 socks blue\n".to_vec(), 5);
    assert_eq!(profile.reputation, 18);
    assert_eq!(profile.kits[0][0], "red");
    assert_eq!(profile.kits[1][4], "blue");
}

#[test]
fn saves_kit_colours_without_removing_team_details_or_players() {
    let source = "! Name \"Test\"\n! reputation 12\n! 1 shirt red\nPlayer, One: F C\nPlayer, Two: M C\n";
    let mut profile = parse_team(source.as_bytes().to_vec(), 5);
    profile.kits[0][0] = "blue".into();
    profile.players.swap(0, 1);
    let saved = String::from_utf8(render_team("Test", &profile).unwrap()).unwrap();
    assert!(saved.contains("! reputation 12"));
    assert!(saved.contains("! 1 shirt blue"));
    assert!(saved.contains("Player, Two: M C"));
    assert!(saved.contains("Player, One: F C"));
    assert!(saved.find("Player, Two: M C") < saved.find("Player, One: F C"));
}

#[test]
fn player_profile_removes_disabled_fields_when_saved() {
    let mut profile = parse_player(b"nationality = Italy\nspeed = 18\nskin = white\n".to_vec());
    profile.remove("speed");
    profile.set("ability", "197");
    let saved = String::from_utf8(render_player(&profile).unwrap()).unwrap();
    assert!(saved.contains("nationality = Italy"));
    assert!(saved.contains("ability = 197"));
    assert!(!saved.contains("speed ="));
}

#[test]
fn roster_position_separates_role_and_side() {
    assert_eq!(
        roster_position("Taylor, Alex (1997): AM R"),
        Some(("AM".into(), "R".into()))
    );
    assert_eq!(
        roster_position("Taylor, Alex (1997): GK"),
        Some(("GK".into(), "".into()))
    );
}

#[test]
fn roster_entries_without_a_known_role_have_no_position() {
    assert_eq!(roster_position("Taylor, Alex"), None);
    assert_eq!(roster_position("Taylor, Alex: XX L"), None);
    assert_eq!(roster_position("Taylor, Alex: D Q"), Some(("D".into(), "".into())));
    assert_eq!(player_file_name("  Taylor, Alex (1997) : AM R"), "Taylor, Alex (1997)");
    assert_eq!(player_file_name(" Solo "), "Solo");
}

#[test]
fn a_new_team_file_gets_its_name_reputation_and_every_kit_colour() {
    let profile = TeamProfile::defaults(3);
    let text = String::from_utf8(render_team("New", &profile).unwrap()).unwrap();
    assert!(text.starts_with("! Name \"New\"\n! reputation 3\n! 1 shirt white\n"));
    assert!(text.ends_with("! 3 socks white\n"));
    assert_eq!(text.lines().count(), 17);
}

#[test]
fn team_details_after_the_dollar_line_are_not_players() {
    let profile = parse_team(b"! reputation x\nOne: GK\n$ details\nNot a player\n! 4 shirt red\n! 1 SOCKS green\n".to_vec(), 9);
    assert_eq!(profile.reputation, 9);
    assert_eq!(profile.players, ["One: GK"]);
    assert_eq!(profile.kits[0][4], "green");
    assert!(profile.file_exists);
}

#[test]
fn player_keys_are_read_under_their_canonical_names() {
    let mut profile = PlayerProfile::empty();
    profile.set("Year of-Birth", "1990");
    profile.set("Keeping", "12");
    profile.set("unknown", "1");
    assert_eq!(profile.value("yearOfBirth"), Some("1990"));
    assert_eq!(profile.value("handling"), Some("12"));
    assert_eq!(profile.value("unknown"), None);
    profile.set("handling", "13");
    assert_eq!(profile.value("keeping"), Some("13"));
    profile.remove("HANDLING");
    assert_eq!(profile.value("handling"), None);
    let names: Vec<&str> = profile.fields().iter().map(|(k, _)| k.as_str()).collect();
    assert_eq!(names, ["yearOfBirth"]);
}

#[test]
fn a_new_player_file_lists_its_fields_in_name_order() {
    let mut profile = PlayerProfile::empty();
    profile.set("speed", "10");
    profile.set("ability", "5");
    let text = String::from_utf8(render_player(&profile).unwrap()).unwrap();
    assert_eq!(text, "ability = 5\nspeed = 10\n");
}

#[test]
fn nationality_is_read_from_the_player_file_or_falls_back() {
    assert_eq!(nationality_from(b"skin = white\r\n NATIONALITY = Italy \r\n", "X"), "Italy");
    assert_eq!(nationality_from(b"skin = white\n", "Fallback"), "Fallback");
}

#[test]
fn colour_table_names_and_values() {
    let table = b"$FF0000 red Rosso\n$00ff00 green\n$zz bad\n$0000FF RED\n";
    assert_eq!(colour_names_in(table), ["red", "green", "bad"]);
    assert_eq!(colour_names_in(b"nothing here\n"), ["white"]);
    let entries = colour_entries(table);
    assert_eq!(entries.len(), 4);
    assert_eq!(colour_for(&entries, "Rosso"), (255, 0, 0));
    assert_eq!(colour_for(&entries, "red"), (0, 0, 255));
    assert_eq!(colour_for(&entries, "GREEN"), (0, 255, 0));
    assert_eq!(colour_for(&entries, "missing"), (255, 255, 255));
}

#[test]
fn a_file_changed_since_it_was_read_is_not_written_over() {
    let source = b"! Name \"Roma\"\n".to_vec();
    assert_eq!(
        world_editor::teams::check_unchanged("Data/Team/Roma.txt", &source, &Ok(source.clone())),
        Ok(())
    );
    assert_eq!(
        world_editor::teams::check_unchanged("Data/Team/Roma.txt", &source, &Ok(b"other".to_vec())),
        Err("Data/Team/Roma.txt è cambiato esternamente.".to_string())
    );
    assert_eq!(
        world_editor::teams::check_unchanged("Data/Team/Roma.txt", &source, &Err("denied".to_string())),
        Err("denied".to_string())
    );
}
