use algs4::baseball::{factorial, BaseballDivision, BaseballTeam};
use algs4::carving::{Carver, Rgb, MAX_PIXEL_ENERGY};
use algs4::seam_removal::lazy_remove_indexes_of;

fn rgb(r: u8, g: u8, b: u8) -> Rgb {
    Rgb { r: r, g: g, b: b }
}

#[test]
fn calculates_energy_as_given_in_example_in_spec() {
    let mut carver = Carver::new(3 * 4);
    carver.calculate_energy(3, 4, &vec!(
        rgb(255, 101, 51), rgb(255, 101, 153), rgb(255, 101, 255),
        rgb(255, 153, 51), rgb(255, 153, 153), rgb(255, 153, 255),
        rgb(255, 203, 51), rgb(255, 204, 153), rgb(255, 205, 255),
        rgb(255, 255, 51), rgb(255, 255, 153), rgb(255, 255, 255),
    )[..], None);

    assert_eq!(carver.energy, vec!(
        MAX_PIXEL_ENERGY, MAX_PIXEL_ENERGY, MAX_PIXEL_ENERGY,
        MAX_PIXEL_ENERGY, 52225,            MAX_PIXEL_ENERGY,
        MAX_PIXEL_ENERGY, 52024,            MAX_PIXEL_ENERGY,
        MAX_PIXEL_ENERGY, MAX_PIXEL_ENERGY, MAX_PIXEL_ENERGY,
    ));
}

#[test]
fn energy_hint_recomputes_beside_the_seam_only() {
    let pixels = vec![rgb(0, 0, 0); 9];
    let mut carver = Carver::new(12);
    carver.energy = vec![7; 12];
    carver.calculate_energy(3, 3, &pixels, Some(vec![1, 5, 7]));
    // rows 0, 1, 2: pixels 1 and 0, 4 and 3, 5 and 4 are recomputed
    assert_eq!(
        carver.energy,
        vec![MAX_PIXEL_ENERGY, MAX_PIXEL_ENERGY, 7, MAX_PIXEL_ENERGY, 0, MAX_PIXEL_ENERGY, 7, 7, 7]
    );
}

#[test]
fn lazy_remove_indexes_of_works_correctly() {
    let mut vec = (0..11).collect::<Vec<u32>>();
    let to_remove = vec!(1, 3, 7);

    lazy_remove_indexes_of(&mut vec, &to_remove);
    let vec_len = vec.len();
    vec.truncate(vec_len - to_remove.len()); // only the first 7 elements of vec are valid now

    // 0 1 2 3 4 5 6 7 8 9 10 11 gets turned into
    // 0   2   4 5 6   8 9 10 11
    assert_eq!(vec, vec!(0, 2, 4, 5, 6, 8, 9, 10));
}

#[test]
fn lazy_remove_indexes_of_works_correctly_on_edges() {
    let mut vec = (0..5).collect::<Vec<u32>>();
    let to_remove = vec!(0, 5);

    lazy_remove_indexes_of(&mut vec, &to_remove);
    let vec_len = vec.len();
    vec.truncate(vec_len - to_remove.len()); // only the first 3 elements of vec are valid now

    // 0 1 2 3 4 gets turned into
    //   1 2 3
    assert_eq!(vec, vec!(1, 2, 3));
}

#[test]
fn removing_nothing_keeps_everything() {
    let mut vec = vec![4u8, 5, 6];
    lazy_remove_indexes_of(&mut vec, &vec![]);
    assert_eq!(vec, vec![4, 5, 6]);
}

#[test]
fn finds_seam_as_given_in_example_in_spec() {
    let img_width = 6;
    let img_height = 5;
    let mut carver = Carver::new(img_width * img_height);
    carver.energy = vec![
        MAX_PIXEL_ENERGY, MAX_PIXEL_ENERGY, MAX_PIXEL_ENERGY, MAX_PIXEL_ENERGY, MAX_PIXEL_ENERGY, MAX_PIXEL_ENERGY,
        MAX_PIXEL_ENERGY, 23346,            51304,            31519,            55112,            MAX_PIXEL_ENERGY,
        MAX_PIXEL_ENERGY, 47908,            61346,            35919,            38887,            MAX_PIXEL_ENERGY,
        MAX_PIXEL_ENERGY, 31400,            37927,            14437,            63076,            MAX_PIXEL_ENERGY,
        MAX_PIXEL_ENERGY, MAX_PIXEL_ENERGY, MAX_PIXEL_ENERGY, MAX_PIXEL_ENERGY, MAX_PIXEL_ENERGY, MAX_PIXEL_ENERGY,
    ];

    let seam = carver.find_seam(img_width, img_height);

    // expecting a seam of MAX_PIXEL_ENERGY, 31519, 35919, 14437, MAX_PIXEL_ENERGY in the following pattern:
    // --  --  2   --  --  --
    // --  --  --  9   --  --
    // --  --  --  15  --  --
    // --  --  --  21  --  --
    // --  --  26  --  --  --
    assert_eq!(seam, vec![2, 9, 15, 21, 26]);
}

#[test]
fn seam_of_one_column_and_one_row() {
    let mut carver = Carver::new(4);
    carver.energy = vec![5, 1, 7, 2];
    assert_eq!(carver.find_seam(1, 4), vec![0, 1, 2, 3]);
    assert_eq!(carver.find_seam(4, 1), vec![1]);
}

#[test]
fn seam_prefers_the_first_of_equal_costs() {
    let mut carver = Carver::new(6);
    carver.energy = vec![3, 3, 3, 1, 1, 1];
    assert_eq!(carver.find_seam(3, 2), vec![0, 3]);
}

#[test]
fn factorial_works() {
    assert_eq!(factorial(0), 1);
    assert_eq!(factorial(1), 1);
    assert_eq!(factorial(2), 2);
    assert_eq!(factorial(3), 6);
    assert_eq!(factorial(4), 24);
}

fn teams_4() -> BaseballDivision {
    let teams = ["Atlanta", "Philadelphia", "New York", "Montreal"]
        .iter()
        .map(|s| BaseballTeam(s.to_string()))
        .collect();
    BaseballDivision::new(
        teams,
        vec![83, 80, 78, 77],
        vec![71, 79, 78, 82],
        vec![8, 3, 6, 3],
        vec![
            vec![0, 1, 6, 1],
            vec![1, 0, 0, 2],
            vec![6, 0, 0, 0],
            vec![1, 2, 0, 0],
        ],
    )
}

#[test]
fn trivial_elimination_names_the_first_team_out_of_reach() {
    let div = teams_4();
    assert_eq!(div.trivially_eliminated_by(0), None);
    assert_eq!(div.trivially_eliminated_by(3), Some(0));
    assert_eq!(div.teams()[3], BaseballTeam("Montreal".to_string()));
    assert_eq!(div.remaining_between(0, 2), 6);
}
