use gridnav::coord::Coord;
use gridnav::format::{is_whitespace, render, tile_from_char, MapParseError};
use gridnav::grid::{Grid, Tile};

fn parse_error(text: &str) -> MapParseError {
    match Grid::parse(text) {
        Ok(_) => panic!("the text was accepted"),
        Err(e) => e,
    }
}

#[test]
fn letters_stand_for_tiles() {
    assert_eq!(tile_from_char('C'), Some(Tile::CLEAN));
    assert_eq!(tile_from_char('W'), Some(Tile::IMPASSABLE));
    assert_eq!(tile_from_char('T'), Some(Tile::TARGET));
    assert_eq!(tile_from_char('D'), None);
    assert_eq!(tile_from_char('c'), None);
    assert_eq!(tile_from_char(' '), None);
    assert_eq!(tile_from_char('.'), None);
}

#[test]
fn white_space_is_what_unicode_says() {
    for code in 0..=0x11_0000u32 {
        if let Some(c) = char::from_u32(code) {
            assert_eq!(is_whitespace(c), c.is_whitespace(), "U+{:04X}", code);
        }
    }
}

#[test]
fn parses_a_single_row() {
    let g = Grid::parse("CCT").unwrap();
    assert_eq!(g.width(), 3);
    assert_eq!(g.height(), 1);
    assert_eq!(
        g.get_tile_iterator(),
        vec![
            (Coord::new(0, 0), Tile::CLEAN),
            (Coord::new(1, 0), Tile::CLEAN),
            (Coord::new(2, 0), Tile::TARGET),
        ]
    );
}

#[test]
fn parses_rows_top_to_bottom() {
    let g = Grid::parse("CW\nTC\nWW\n").unwrap();
    assert_eq!(g.width(), 2);
    assert_eq!(g.height(), 3);
    assert_eq!(g.get_tile(Coord::new(0, 0)), Ok(Tile::CLEAN));
    assert_eq!(g.get_tile(Coord::new(1, 0)), Ok(Tile::IMPASSABLE));
    assert_eq!(g.get_tile(Coord::new(0, 1)), Ok(Tile::TARGET));
    assert_eq!(g.get_tile(Coord::new(1, 1)), Ok(Tile::CLEAN));
    assert_eq!(g.get_tile(Coord::new(0, 2)), Ok(Tile::IMPASSABLE));
    assert_eq!(g.get_tile(Coord::new(1, 2)), Ok(Tile::IMPASSABLE));
}

#[test]
fn white_space_and_empty_lines_do_not_count() {
    let plain = Grid::parse("CW\nTC").unwrap().get_tile_iterator();
    for text in [
        "CW\r\nTC\r\n",
        "\n\nCW\n\n\nTC\n\n",
        "  CW  \n\tTC\t\n",
        "   \nCW\n \t \nTC\n   ",
        "\u{a0}CW\u{3000}\n\u{2003}TC\u{85}",
        "CW\u{b}\n\u{c}TC",
    ] {
        let g = Grid::parse(text).unwrap();
        assert_eq!(g.width(), 2);
        assert_eq!(g.height(), 2);
        assert_eq!(g.get_tile_iterator(), plain);
    }
}

#[test]
fn white_space_inside_a_row_is_no_tile() {
    assert_eq!(parse_error("C W"), MapParseError::UnknownTile { line: 0, character: ' ' });
}

#[test]
fn text_without_rows_is_refused() {
    assert_eq!(parse_error(""), MapParseError::Empty);
    assert_eq!(parse_error("\n"), MapParseError::Empty);
    assert_eq!(parse_error("   \n\t\n \r\n"), MapParseError::Empty);
}

#[test]
fn unknown_characters_are_refused() {
    assert_eq!(parse_error("CXT"), MapParseError::UnknownTile { line: 0, character: 'X' });
    assert_eq!(parse_error("CCT\nCDC"), MapParseError::UnknownTile { line: 1, character: 'D' });
    assert_eq!(parse_error("\n\nCC\n\nCc"), MapParseError::UnknownTile { line: 1, character: 'c' });
    assert_eq!(parse_error("CC\nC\u{e9}"), MapParseError::UnknownTile { line: 1, character: '\u{e9}' });
    assert_eq!(parse_error("C?!"), MapParseError::UnknownTile { line: 0, character: '?' });
}

#[test]
fn ragged_rows_are_refused() {
    assert_eq!(parse_error("CCC\nCC"), MapParseError::Ragged { line: 1 });
    assert_eq!(parse_error("CC\nCCC"), MapParseError::Ragged { line: 1 });
    assert_eq!(parse_error("CC\nCC\n\nC\nCC"), MapParseError::Ragged { line: 2 });
}

#[test]
fn the_first_bad_row_decides_the_error() {
    assert_eq!(parse_error("CC\nC\nCX"), MapParseError::Ragged { line: 1 });
    assert_eq!(parse_error("CC\nCX\nC"), MapParseError::UnknownTile { line: 1, character: 'X' });
    assert_eq!(parse_error("CC\nCCX"), MapParseError::UnknownTile { line: 1, character: 'X' });
    assert_eq!(parse_error("CC\nX"), MapParseError::UnknownTile { line: 1, character: 'X' });
}

#[test]
fn grid_is_drawn_row_by_row() {
    let mut g = Grid::new(3, 2);
    g.set_tile(Coord::new(1, 0), Tile::IMPASSABLE).unwrap();
    g.set_tile(Coord::new(2, 0), Tile::TARGET).unwrap();
    g.set_tile(Coord::new(1, 1), Tile::DIRTY).unwrap();
    assert_eq!(g.to_string(), "CWT\nCDC\n");
    assert_eq!(render(&g, None), "CWT\nCDC\n");
}

#[test]
fn empty_grids_are_drawn_as_empty_rows() {
    assert_eq!(Grid::new(0, 0).to_string(), "");
    assert_eq!(Grid::new(3, 0).to_string(), "");
    assert_eq!(Grid::new(0, 2).to_string(), "\n\n");
}

#[test]
fn agent_is_drawn_over_its_tile() {
    let g = Grid::parse("CWT\nCCC").unwrap();
    assert_eq!(render(&g, Some((Coord::new(1, 0), "R"))), "CRT\nCCC\n");
    assert_eq!(render(&g, Some((Coord::new(2, 1), "R"))), "CWT\nCCR\n");
    assert_eq!(render(&g, Some((Coord::new(0, 0), "<>"))), "<>WT\nCCC\n");
    assert_eq!(render(&g, Some((Coord::new(0, 0), ""))), "WT\nCCC\n");
    assert_eq!(render(&g, Some((Coord::new(3, 0), "R"))), "CWT\nCCC\n");
    assert_eq!(render(&g, Some((Coord::new(-1, -1), "R"))), "CWT\nCCC\n");
}

#[test]
fn drawn_grid_parses_back() {
    let text = "CWT\nTCW\nWWC\n";
    let g = Grid::parse(text).unwrap();
    assert_eq!(g.to_string(), text);
    let again = Grid::parse(&g.to_string()).unwrap();
    assert_eq!(again.get_tile_iterator(), g.get_tile_iterator());
}

#[test]
fn dirty_tiles_are_drawn_but_not_read() {
    let mut g = Grid::new(2, 1);
    g.set_tile(Coord::new(1, 0), Tile::DIRTY).unwrap();
    assert_eq!(g.to_string(), "CD\n");
    assert_eq!(parse_error("CD\n"), MapParseError::UnknownTile { line: 0, character: 'D' });
}
