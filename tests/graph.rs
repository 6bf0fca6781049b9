use algo_kit::graph::dijkstra::{dijkstra, pop_min, INF};
use algo_kit::graph::spfa::{spfa, UNREACHED};

#[test]
fn dijkstra_test1() {
    let mut heap: Vec<(i32, usize)> = Vec::new();
    heap.push((10, 0));
    heap.push((0, 0));
    heap.push((20, 0));

    assert_eq!(pop_min(&mut heap), (0, 0));
    assert_eq!(heap.len(), 2);
    assert_eq!(pop_min(&mut heap), (10, 0));
}

#[test]
fn dijkstra_test2() {
    let mut map: Vec<Vec<(usize, i32)>> = vec![vec![]; 4];
    map[0].extend_from_slice(&[(1, 10), (2, 3)]);
    map[1].extend_from_slice(&[(3, 1)]);
    map[2].extend_from_slice(&[(3, 30)]);
    let res = dijkstra(&map, 0, 4);
    assert_eq!(res, [0, 10, 3, 11]);
}

#[test]
fn dijkstra_unreachable_and_cycles() {
    let map: Vec<Vec<(usize, i32)>> = vec![
        vec![(1, 2), (1, 7)],
        vec![(0, 0), (2, 5)],
        vec![(2, 0)],
        vec![(0, 1)],
    ];
    assert_eq!(dijkstra(&map, 0, 4), [0, 2, 7, INF]);
    assert_eq!(dijkstra(&map, 3, 4), [1, 3, 8, 0]);
}

#[test]
fn spfa_test1() {
    /*
    0----1
    |    |
    |    |
    2----3
     */
    let maps: [[(usize, i32); 2]; 4] = [
        [(1, 1), (2, 3)],
        [(3, 10), (0, 1)],
        [(3, 1), (0, 3)],
        [(3, 0), (3, 0)],
    ];
    let vmaps = maps
        .iter()
        .map(|x| x.iter().map(|x| *x).collect())
        .collect();
    let res = spfa(&vmaps, 0);
    assert_eq!(res, [0, 1, 3, 4]);
}

#[test]
fn spfa_unreachable() {
    let maps: Vec<Vec<(usize, i32)>> = vec![vec![(1, 4)], vec![], vec![(0, 1)]];
    assert_eq!(spfa(&maps, 0), [0, 4, UNREACHED]);
    assert_eq!(spfa(&maps, 2), [1, 5, 0]);
}
