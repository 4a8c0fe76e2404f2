use tiles2048::board::Direction;
use tiles2048::control::{command, Command, Key};

#[test]
fn q_ends_the_session() {
    assert_eq!(command(Key::Char('q')), Command::Quit);
}

#[test]
fn arrows_move_the_tiles_their_way() {
    assert_eq!(command(Key::Left), Command::Shift(Direction::LEFT));
    assert_eq!(command(Key::Right), Command::Shift(Direction::RIGHT));
    assert_eq!(command(Key::Up), Command::Shift(Direction::UP));
    assert_eq!(command(Key::Down), Command::Shift(Direction::DOWN));
}

#[test]
fn letters_of_the_home_row_move_the_tiles() {
    assert_eq!(command(Key::Char('h')), Command::Shift(Direction::LEFT));
    assert_eq!(command(Key::Char('j')), Command::Shift(Direction::DOWN));
    assert_eq!(command(Key::Char('k')), Command::Shift(Direction::UP));
    assert_eq!(command(Key::Char('l')), Command::Shift(Direction::RIGHT));
}

#[test]
fn other_keys_are_ignored() {
    for key in [Key::Other, Key::Char('Q'), Key::Char('H'), Key::Char('x'), Key::Char(' ')] {
        assert_eq!(command(key), Command::Ignore);
    }
}
