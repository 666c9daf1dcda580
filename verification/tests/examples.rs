use lifecheck::examples::{Book, Circle};

#[test]
fn circle_cmp_returns_the_larger_radius() {
    let r1 = 10;
    let r2 = 9;
    let c = Circle::new(&r1);
    let larger = c.cmp(&r2);
    assert_eq!(*larger, 10);
}

#[test]
fn circle_cmp_returns_the_other_when_it_is_larger() {
    let r1 = 3;
    let r2 = 7;
    let c = Circle::new(&r1);
    assert_eq!(*c.cmp(&r2), 7);
}

#[test]
fn circle_cmp_ties_go_to_the_argument() {
    let r1 = 5;
    let r2 = 5;
    let c = Circle::new(&r1);
    let larger = c.cmp(&r2);
    assert_eq!(*larger, 5);
    assert!(std::ptr::eq(larger, &r2));
}

#[test]
fn book_new_fills_every_field() {
    let name = String::from("The Rust Book");
    let b = Book::new(&name, 1140987);
    assert_eq!(b.name, "The Rust Book");
    assert_eq!(b.descr, "The Rust Book");
    assert_eq!(b.serial_num, 1140987);
}

#[test]
fn book_fields_borrow_until_the_book_is_gone() {
    let mut name = String::from("The Rust Book");
    let descr_str = String::from("New Edition of the Rust Book.");
    {
        let descr_ref = &descr_str;
        let rust_book = Book { name: &name, descr: descr_ref, serial_num: 1140987 };
        assert_eq!(rust_book.name, "The Rust Book");
    }
    name = String::from("Behind Borrow Checker");
    assert_eq!(name, "Behind Borrow Checker");
}
