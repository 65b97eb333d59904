use sisyphus::levels::{LevelError, Levels};

#[test]
fn test_from_text_basic() {
    let level1 = "####
# .#
#  ###
#*@  #
#  $ #
#  ###
####";

    let level2 = "######
#    #
# #@ #
# $* #
# .* #
#    #
######";

    let level3 = "  ####
###  ####
#     $ #
# #  #$ #
# . .#@ #
#########";

    let xsb_content = format!("; 1\n\n{}\n\n; 2\n\n{}\n\n; 3\n\n{}\n", level1, level2, level3);

    let levels = Levels::from_text(&xsb_content).unwrap();

    assert_eq!(levels.len(), 3);

    assert_eq!(levels.get(0).unwrap().to_text().trim_end(), level1);
    assert_eq!(levels.get(1).unwrap().to_text().trim_end(), level2);
    assert_eq!(levels.get(2).unwrap().to_text().trim_end(), level3);
}

#[test]
fn test_from_text_invalid_level() {
    let xsb_content = "; 1

####
# .#
#@@  #
####
";

    let result = Levels::from_text(xsb_content);
    assert!(result.is_err());
    assert!(matches!(result.unwrap_err(), LevelError::InvalidLevel(_)));
}

#[test]
fn levels_out_of_range_and_empty_text() {
    let levels = Levels::from_text("; only a comment\n\n").unwrap();
    assert_eq!(levels.len(), 0);
    assert!(levels.get(0).is_none());
    let one = Levels::from_text("####\n#@*#\n####\n").unwrap();
    assert_eq!(one.len(), 1);
    assert!(one.get(1).is_none());
}

#[test]
fn levels_with_too_many_pieces() {
    let crowded = format!("{}\n$@\n", "$".repeat(64));
    assert!(sisyphus::text::too_many_pieces_in(&crowded));
    assert!(matches!(Levels::from_text(&crowded).unwrap_err(), LevelError::TooManyPieces));

    // An error met before the sixty-fifth box is reported as the error.
    let bad_first = format!("x{}\n$@\n", "$".repeat(63));
    assert!(!sisyphus::text::too_many_pieces_in(&bad_first));
    assert!(matches!(Levels::from_text(&bad_first).unwrap_err(), LevelError::InvalidLevel(_)));

    // An invalid level before a crowded one is reported first.
    let two = format!("#@@#\n\n{}", crowded);
    assert!(matches!(Levels::from_text(&two).unwrap_err(), LevelError::InvalidLevel(_)));

    // Sixty-four boxes and goals fit.
    let full = format!("{}\n@\n", "*".repeat(64));
    assert!(!sisyphus::text::too_many_pieces_in(&full));
    assert!(Levels::from_text(&full).is_ok());
}
