use world_editor::encoding::decode_text;
use world_editor::league_save::render;
use world_editor::leagues::{parse_international_countries, parse_league};
use world_editor::world_save::render_international;

const SOURCE: &str = "; keep comment\r\n! Country \"Test\"\r\n* Cup\r\n+ round 1 \"Final\" 1-2 47\r\n: First\r\n+ division 1\r\n+ promotions 0\r\n+ relegations 0\r\n+ reputation 10\r\nZulu\r\n; between teams\r\nAlpha\r\nBeta";

#[test]
fn roundtrip_is_exact_and_edits_preserve_cups_comments_and_newlines() {
    let mut league = parse_league("Test.txt", SOURCE);
    assert_eq!(render(&league).unwrap(), SOURCE.as_bytes());
    league.divisions[0].name = "New division".into();
    league.divisions[0].reputation = Some(12);
    league.divisions[0].teams.swap(0, 2);
    let expected = SOURCE
        .replace(": First", ": New division")
        .replace("reputation 10", "reputation 12")
        .replace(
            "Zulu\r\n; between teams\r\nAlpha\r\nBeta",
            "Beta\r\n; between teams\r\nAlpha\r\nZulu",
        );
    assert_eq!(render(&league).unwrap(), expected.as_bytes());
}

#[test]
fn keeps_legacy_encoding_and_rejects_unrepresentable_text() {
    let source = SOURCE.replace("First", "Première");
    let mut league = parse_league("Test.txt", &source);
    league.source_bytes = encoding_rs::WINDOWS_1252.encode(&source).0.into_owned();
    assert_eq!(render(&league).unwrap(), league.source_bytes);
    league.divisions[0].name = "日本".into();
    assert!(render(&league).is_err());
}

#[test]
fn rejects_invalid_structure_and_duplicate_clubs() {
    let mut league = parse_league("Test.txt", SOURCE);
    league.divisions[0].name = "Bad\nInjected".into();
    assert!(render(&league).is_err());
    league.divisions[0].name = "Valid".into();
    league.divisions[0].teams[1] = "Zulu".into();
    assert!(render(&league).is_err());
}

#[test]
fn appends_a_new_club_before_the_next_section() {
    let mut league = parse_league("Test.txt", SOURCE);
    league.divisions[0].teams.push("Gamma".into());
    let rendered = render(&league).unwrap();
    assert_eq!(
        parse_league(&league.path, &decode_text(&rendered)).divisions,
        league.divisions
    );
    assert!(decode_text(&rendered).ends_with("Beta\r\nGamma\r\n"));
}

#[test]
fn adds_missing_property_and_preserves_utf8_bom() {
    let source = SOURCE.replace("+ reputation 10\r\n", "");
    let mut league = parse_league("Test.txt", &source);
    league.source_bytes = [vec![239, 187, 191], source.as_bytes().to_vec()].concat();
    league.divisions[0].reputation = Some(9);
    let bytes = render(&league).unwrap();
    assert!(bytes.starts_with(&[239, 187, 191]));
    assert_eq!(
        parse_league(&league.path, &decode_text(&bytes)).divisions,
        league.divisions
    );
}

#[test]
fn sync_keeps_international_instructions_and_replaces_only_clubs() {
    let source = "! AdditionalCountry \"Test\"\r\n! TempNames \"a\" \"b\"\r\n+ reputation 4\r\nOld one\r\nOld two\r\n* Cup\r\n+ round 1 \"Final\"\r\n";
    let (mut countries, _) = parse_international_countries(source);
    countries[0].clubs = vec!["New one".into(), "New two".into()];
    let rendered = render_international(source.as_bytes(), &countries).unwrap();
    assert_eq!(
        String::from_utf8(rendered).unwrap(),
        source
            .replace("Old one", "New one")
            .replace("Old two", "New two")
    );
}

#[test]
fn international_structure_changes_are_refused() {
    let source = "! AdditionalCountry \"Test\"\nOld one\n";
    let (mut countries, _) = parse_international_countries(source);
    countries[0].clubs.push("Extra".into());
    assert_eq!(
        render_international(source.as_bytes(), &countries).unwrap_err(),
        "La struttura dei paesi internazionali non può essere modificata da questa schermata."
    );
    let (mut renamed, _) = parse_international_countries(source);
    renamed[0].name = "test".into();
    renamed[0].clubs[0] = "Newer".into();
    assert!(render_international(source.as_bytes(), &renamed).is_err());
    let (none, _) = parse_international_countries("");
    assert_eq!(
        render_international(source.as_bytes(), &none).unwrap_err(),
        "Il file internazionale è cambiato o non può essere sincronizzato in sicurezza."
    );
}

#[test]
fn an_unchanged_league_is_rendered_again_byte_for_byte() {
    let source = "! Country \"X\"\n: One\n+ division 1\nA\nB\nC\n";
    let league = parse_league("X.txt", source);
    assert_eq!(render(&league).unwrap(), source.as_bytes());
}

#[test]
fn an_unchanged_legacy_league_is_written_back_byte_for_byte() {
    let bytes = b"# commento\r\n! Country \"Belgium\"\r\n: Pro League\r\n+ division 1\r\n+ reputation 9\r\nLi\xe8ge\r\nGent\r\nGenk\r\n* Coppa\r\n+ reputation 20\r\n".to_vec();
    let league = world_editor::save_laws::read_league("Data/League/Belgium.txt", bytes.clone());
    assert_eq!(league.divisions[0].teams[0], "Liège");
    assert_eq!(world_editor::league_save::render(&league).unwrap(), bytes);
    let utf8 = "\u{feff}! Country \"Belgium\"\n: Pro League\n+ division 1\nLiège\nGent\nGenk\n".as_bytes().to_vec();
    let league = world_editor::save_laws::read_league("Data/League/Belgium.txt", utf8.clone());
    assert_eq!(world_editor::league_save::render(&league).unwrap(), utf8);
}

#[test]
fn a_failed_write_puts_back_the_files_written_before_it() {
    let mut run = world_editor::world_save::Commit::start(3);
    let mut log = Vec::new();
    loop {
        match run.next_action() {
            world_editor::world_save::CommitAction::Write(i) => {
                log.push(format!("write {i}"));
                run.record(if i == 2 { Err("disco pieno".to_string()) } else { Ok(()) });
            }
            world_editor::world_save::CommitAction::Restore(i) => {
                log.push(format!("restore {i}"));
                run.record(Ok(()));
            }
            world_editor::world_save::CommitAction::Done(outcome) => {
                assert_eq!(outcome, Err("Salvataggio interrotto: disco pieno".to_string()));
                break;
            }
        }
    }
    assert_eq!(log, ["write 0", "write 1", "write 2", "restore 1", "restore 0"]);
    let mut run = world_editor::world_save::Commit::start(0);
    assert!(matches!(run.next_action(), world_editor::world_save::CommitAction::Done(Ok(()))));
    run.record(Ok(()));
    assert!(matches!(run.next_action(), world_editor::world_save::CommitAction::Done(Ok(()))));
}
