use advent::cucumbers::{parse_line, read_data, Grid, Space};

fn lines(text: &str) -> Vec<Vec<char>> {
    text.lines().map(|l| l.chars().collect()).collect()
}

fn show(g: &Grid) -> String {
    let mut out: String = g.fmt().into_iter().collect();
    out.push('\n');
    out
}

const SAMPLE: &str = "v...>>.vv>
.vv>>.vv..
>>.>v>...v
>>v>>.>.v.
v>v.vv.v..
>.>>..v...
.vv..>.>v.
v.v..>>v.v
....v..v.>";

#[test]
fn parse_line_reads_three_kinds() {
    let row: Vec<char> = ".>v".chars().collect();
    assert_eq!(parse_line(&row), Some(vec![Space::Empty, Space::Right, Space::Down]));
    let bad: Vec<char> = ".>x".chars().collect();
    assert_eq!(parse_line(&bad), None);
    assert_eq!(parse_line(&vec![]), Some(vec![]));
}

#[test]
fn read_data_shapes_the_floor() {
    let g = read_data(&lines("..>\nv..")).unwrap();
    assert_eq!((g.width, g.height), (3, 2));
    assert_eq!(g.data.len(), 6);
    assert_eq!(g.data[2], Space::Right);
    assert_eq!(g.data[3], Space::Down);
    assert!(read_data(&lines("")).is_none());
    assert!(read_data(&lines("..>\nv.#")).is_none());
}

#[test]
fn steps_have_their_vectors() {
    assert_eq!(Space::Right.get_diff(), (1, 0));
    assert_eq!(Space::Down.get_diff(), (0, 1));
}

#[test]
fn coordinates_wrap() {
    let g = read_data(&lines("...\n...")).unwrap();
    assert_eq!(g.correct_coords(3, 2), (0, 0));
    assert_eq!(g.correct_coords(2, 1), (2, 1));
    assert_eq!(g.correct_coords(4, 3), (1, 1));
}

#[test]
fn occupied_and_set() {
    let mut g = read_data(&lines(".>.\n...")).unwrap();
    assert!(g.is_occupied(1, 0));
    assert!(!g.is_occupied(0, 0));
    assert!(g.is_occupied(4, 2));
    g.set(2, 1, Space::Down);
    assert!(g.is_occupied(2, 1));
    assert_eq!(g.data[5], Space::Down);
    g.set(1, 0, Space::Empty);
    assert!(!g.is_occupied(1, 0));
}

#[test]
fn a_row_moves_as_it_stood() {
    let mut g = read_data(&lines("...>>>>>...")).unwrap();
    assert!(g.tick());
    assert_eq!(show(&g), "...>>>>.>..\n");
    assert!(g.tick());
    assert_eq!(show(&g), "...>>>.>.>.\n");
}

#[test]
fn right_herd_moves_first() {
    let mut g = read_data(&lines("..........\n.>v....v..\n.......>..\n..........")).unwrap();
    assert!(g.tick());
    assert_eq!(show(&g), "..........\n.>........\n..v....v>.\n..........\n");
}

#[test]
fn edges_are_joined() {
    let text = "...>...\n.......\n......>\nv.....>\n......>\n.......\n..vvv..";
    let mut g = read_data(&lines(text)).unwrap();
    g.tick();
    assert_eq!(show(&g), "..vv>..\n.......\n>......\nv.....>\n>......\n.......\n....v..\n");
    g.tick();
    g.tick();
    g.tick();
    assert_eq!(show(&g), ">......\n..v....\n..>.v..\n.>.v...\n...>...\n.......\nv......\n");
}

#[test]
fn one_herd_at_a_time() {
    let mut g = read_data(&lines(">.\nv.")).unwrap();
    assert!(g.tick_space(Space::Right));
    assert_eq!(show(&g), ".>\nv.\n");
    assert!(g.tick_space(Space::Down));
    assert_eq!(show(&g), "v>\n..\n");
    let mut stuck = read_data(&lines(">>")).unwrap();
    assert!(!stuck.tick_space(Space::Right));
    assert!(!stuck.tick_space(Space::Down));
    assert_eq!(show(&stuck), ">>\n");
}

#[test]
fn sample_stops_at_step_58() {
    let mut g = read_data(&lines(SAMPLE)).unwrap();
    let mut steps = 1;
    while g.tick() {
        steps += 1;
    }
    assert_eq!(steps, 58);
    assert_eq!(
        show(&g),
        "..>>v>vv..\n..v.>>vv..\n..>>v>>vv.\n..>>>>>vv.\nv......>vv\nv>v....>>v\nvvv.....>>\n>vv......>\n.>v.vv.v..\n"
    );
}

#[test]
fn drawing() {
    let g = read_data(&lines("..>\nv..")).unwrap();
    let text: String = g.fmt().into_iter().collect();
    assert_eq!(text, "..>\nv..");
    let one = read_data(&lines("v")).unwrap();
    assert_eq!(one.fmt(), vec!['v']);
    let whole: String = read_data(&lines(SAMPLE)).unwrap().fmt().into_iter().collect();
    assert_eq!(whole, SAMPLE);
}

#[test]
fn settling() {
    let mut g = read_data(&lines(SAMPLE)).unwrap();
    assert_eq!(g.settle(1000), Some(58));
    assert_eq!(g.settle(1000), Some(1));
    let mut g = read_data(&lines(SAMPLE)).unwrap();
    assert_eq!(g.settle(57), None);
    assert_eq!(g.settle(1), Some(1));
    let mut g = read_data(&lines(SAMPLE)).unwrap();
    assert_eq!(g.settle(0), None);
    let text: String = g.fmt().into_iter().collect();
    assert_eq!(text, SAMPLE);
    // a lone sea cucumber never rests
    let mut lone = read_data(&lines(">..")).unwrap();
    assert_eq!(lone.settle(500), None);
}

#[test]
fn no_step_loses_a_sea_cucumber() {
    let mut g = read_data(&lines(SAMPLE)).unwrap();
    let count = |g: &Grid, k: Space| g.data.iter().filter(|&&s| s == k).count();
    let (right, down, free) =
        (count(&g, Space::Right), count(&g, Space::Down), count(&g, Space::Empty));
    assert_eq!((right, down, free), (23, 26, 41));
    for _ in 0..60 {
        g.tick_space(Space::Right);
        assert_eq!(count(&g, Space::Right), right);
        assert_eq!(count(&g, Space::Down), down);
        g.tick_space(Space::Down);
        assert_eq!(count(&g, Space::Right), right);
        assert_eq!(count(&g, Space::Down), down);
        assert_eq!(count(&g, Space::Empty), free);
    }
}
