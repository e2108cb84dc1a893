use expr_parser::first::{sort, sort_by, SortOrder};
use expr_parser::utils::is_sorted;
use rand::{Rng, SeedableRng};
use rand::distributions::Standard;
use rand_pcg::Pcg64Mcg;

fn new_u32_vec(n: usize) -> Vec<u32> {
    let rng = Pcg64Mcg::from_seed([0; 16]);
    rng.sample_iter(&Standard).take(n).collect()
}

fn assert_sort_result<T: std::fmt::Debug + PartialEq>(
    result: Result<Vec<T>, String>,
    expected: Vec<T>,
) {
    match result {
        Ok(actual) => {
            assert_eq!(actual, expected);
        }
        Err(err) => assert!(false, "should not get Err({})", err),
    }
}

#[test]
fn sort_u32_ascending() {
    let x = vec![10, 39, 11, 20, 4, 330, 21, 110];
    assert_sort_result(
        sort(&x, &SortOrder::Ascending),
        vec![4, 10, 11, 20, 21, 39, 110, 330],
    );
}

#[test]
fn sort_u32_decending() {
    let x = vec![10, 39, 11, 20, 4, 330, 21, 110];
    assert_sort_result(
        sort(&x, &SortOrder::Descending),
        vec![330, 110, 39, 21, 20, 11, 10, 4],
    );
}

#[test]
fn sort_str_decending() {
    let x = vec!["a", "c", "f", "e", "g", "b", "d", "h"];
    assert_sort_result(
        sort(&x, &SortOrder::Descending),
        vec!["h", "g", "f", "e", "d", "c", "b", "a"],
    );
}

#[derive(PartialEq, Debug, Clone)]
struct User {
    name: String,
    age: u8,
}

impl User {
    fn new(name: &str, age: u8) -> Self {
        Self {
            name: name.to_string(),
            age: age,
        }
    }
}

#[test]
fn sort_users_descending() {
    let alice = User::new("alice", 10);
    let bob = User::new("bob", 40);
    let charlie = User::new("charlie", 20);
    let dave = User::new("dave", 50);
    let users = vec![&alice, &dave, &charlie, &bob];
    assert_sort_result(
        sort_by(&users, &|u1, u2| u1.age.cmp(&u2.age)),
        vec![&alice, &charlie, &bob, &dave],
    );
}

#[test]
fn sort_huge_number_arrays() {
    let arr = new_u32_vec(65536);
    match sort(&arr, &SortOrder::Ascending) {
        Ok(res) => assert!(is_sorted(&res, &SortOrder::Ascending)),
        Err(err) => assert!(false, "should not get Err({})", err),
    }

    match sort(&arr, &SortOrder::Descending) {
        Ok(res) => assert!(is_sorted(&res, &SortOrder::Descending)),
        Err(err) => assert!(false, "should not get Err({})", err),
    }
}

#[test]
fn sort_rejects_lengths_that_are_no_power_of_two() {
    let x = vec![3u32, 1, 2];
    assert_eq!(
        sort(&x, &SortOrder::Ascending),
        Err(String::from("Length of x(3) is invalid"))
    );
    assert_eq!(
        sort_by(&x, &|a, b| a.cmp(b)),
        Err(String::from("Length of x(3) is invalid"))
    );
    let empty: Vec<u32> = vec![];
    assert!(sort(&empty, &SortOrder::Ascending).is_err());
}

#[test]
fn is_sorted_checks_each_direction() {
    assert!(is_sorted(&[1u32, 2, 2, 9], &SortOrder::Ascending));
    assert!(!is_sorted(&[1u32, 2, 2, 9], &SortOrder::Descending));
    assert!(is_sorted(&[9u32, 2, 2, 1], &SortOrder::Descending));
    assert!(is_sorted(&[] as &[u32], &SortOrder::Ascending));
    assert!(is_sorted(&[7u32], &SortOrder::Descending));
}
