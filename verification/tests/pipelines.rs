//! Pipelines and feedback loops of five machines, and the search over
//! phase orderings.

use advent::intcode::load_initial_memory;
use advent::solutions::day07::{run_01, run_02, solve_01, solve_02};

fn load(text: &str) -> Vec<i64> {
    load_initial_memory(text).unwrap()
}

#[test]
fn day07_part_one() {
    let mem = load("3,15,3,16,1002,16,10,16,1,16,15,15,4,15,99,0,0");
    let inputs = vec![4, 3, 2, 1, 0];
    let last = run_01(&mem, &inputs);
    assert_eq!(last, 43_210);

    let mem = load(
        "3,23,3,24,1002,24,10,24,1002,23,
      -1,23,101,5,23,23,1,24,23,23,4,23,99,0,0",
    );
    let inputs = vec![0, 1, 2, 3, 4];
    let last = run_01(&mem, &inputs);
    assert_eq!(last, 54_321);

    let mem = load(
        "3,31,3,32,1002,32,10,32,1001,31,-2,31,1007,
      31,0,33,1002,33,7,33,1,33,31,31,1,32,31,31,4,31,99,0,0,0",
    );
    let inputs = vec![1, 0, 4, 3, 2];
    let last = run_01(&mem, &inputs);
    assert_eq!(last, 65_210);
}

#[test]
fn day07_part_two() {
    let mem = load(
        "3,52,1001,52,-5,52,3,53,1,52,56,54,1007,54,5,55,1005,55,26,1001,54,
      -5,54,1105,1,12,1,53,54,53,1008,54,0,55,1001,55,1,55,2,53,55,53,4,
      53,1001,56,-1,56,1005,56,6,99,0,0,0,0,10",
    );
    let inputs = vec![9, 7, 8, 5, 6];
    let res = run_02(&mem, &inputs);
    assert_eq!(res, 18_216);

    let mem = load(
        "3,26,1001,26,-4,26,3,27,1002,27,2,27,1,27,26,
      27,4,27,1001,28,-1,28,1005,28,6,99,0,0,5",
    );
    let inputs = vec![9, 8, 7, 6, 5];
    let res = run_02(&mem, &inputs);
    assert_eq!(res, 139_629_729);
}

#[test]
fn exhaustive_search_finds_documented_maxima() {
    let mem = load("3,15,3,16,1002,16,10,16,1,16,15,15,4,15,99,0,0");
    assert_eq!(solve_01(&mem), 43_210);

    let mem = load(
        "3,26,1001,26,-4,26,3,27,1002,27,2,27,1,27,26,
      27,4,27,1001,28,-1,28,1005,28,6,99,0,0,5",
    );
    assert_eq!(solve_02(&mem), 139_629_729);
}
