use tanakh_solver::cell::{booster2u16, booster_of_char, char2booster, Booster, Cell};

#[test]
fn new_cells_are_open_or_wall() {
    let e = Cell::new_empty();
    assert!(!e.is_wall() && !e.is_painted() && !e.has_portal());
    assert_eq!(e.item(), None);
    assert_eq!(e.prio(), None);
    let w = Cell::new_wall();
    assert!(w.is_wall() && !w.is_painted() && !w.has_portal());
    assert_eq!(w.item(), None);
    assert_eq!(w.prio(), None);
    assert_eq!(Cell::new(0x0312).0, 0x0312);
}

#[test]
fn setters_change_one_field_each() {
    let mut c = Cell::new_empty();
    c.set_item(Some(Booster::R));
    assert_eq!(c.0, 0x0050);
    c.set_prio(Some(2));
    assert_eq!(c.0, 0x0350);
    c.set_painted();
    assert_eq!(c.0, 0x0352);
    c.set_portal();
    assert_eq!(c.0, 0x0356);
    assert_eq!(c.item(), Some(5));
    assert_eq!(c.prio(), Some(2));
    assert!(c.is_painted() && c.has_portal() && !c.is_wall());
    c.set_item(None);
    assert_eq!(c.0, 0x0306);
    c.set_prio(None);
    assert_eq!(c.0, 0x0006);
    c.set_prio(Some(254));
    assert_eq!(c.prio(), Some(254));
    assert_eq!(c.0, 0xff06);
}

#[test]
fn painting_twice_changes_nothing() {
    let mut c = Cell::new(0x0040);
    c.set_painted();
    let once = c;
    c.set_painted();
    assert!(c == once);
}

#[test]
fn cells_show_as_characters() {
    assert_eq!(Cell::new_empty().to_char(), ' ');
    assert_eq!(Cell::new_wall().to_char(), '#');
    assert_eq!(Cell::new(2).to_char(), '.');
    assert_eq!(Cell::new(3).to_char(), '.');
    assert_eq!(Cell::new(0x0100).to_char(), '0');
    assert_eq!(Cell::new(0x0a02).to_char(), '9');
    assert_eq!(Cell::new(0x0110).to_char(), 'B');
    assert_eq!(Cell::new(0x0020).to_char(), 'F');
    assert_eq!(Cell::new(0x0030).to_char(), 'L');
    assert_eq!(Cell::new(0x0040).to_char(), 'X');
    assert_eq!(Cell::new(0x0050).to_char(), 'R');
    assert_eq!(Cell::new(0x0060).to_char(), 'C');
}

#[test]
fn booster_letters_and_codes() {
    let letters = ['B', 'F', 'L', 'X', 'R', 'C'];
    let kinds = [
        Booster::B,
        Booster::F,
        Booster::L,
        Booster::X,
        Booster::R,
        Booster::C,
    ];
    for k in 0..6 {
        assert_eq!(char2booster(letters[k]), kinds[k]);
        assert_eq!(booster_of_char(letters[k]), Some(kinds[k]));
        assert_eq!(booster2u16(kinds[k]), k as u16 + 1);
    }
    assert_eq!(booster_of_char('Z'), None);
    assert_eq!(booster_of_char('b'), None);
}
