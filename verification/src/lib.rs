pub mod combinatorics;
pub mod exchanges;
pub mod graphs;
pub mod math;
pub mod measure;
pub mod number_traits;
pub mod reader;
pub mod search;

pub use crate::combinatorics::{
    ChooseIterator, Combinations, CombinationsIterator, Permutations, PermutationsIterator,
};
pub use crate::graphs::{DisjointSet, Node};
pub use crate::math::{gcd, lcm, Whole};
pub use crate::measure::cross_product::{Axis, Cross};
pub use crate::measure::direction::Dir;
pub use crate::measure::vec2d::Vec2D;
pub use crate::measure::vec3d::Vec3D;
pub use crate::number_traits::{CheckedAdd, CheckedSub};
pub use crate::reader::{
    read_grid, read_grid_numbers, read_grid_records, read_grid_to_map, read_line, read_line_record,
    read_line_sep, read_lines, read_number_lists, read_number_records, read_numbers,
    read_string_records,
};
pub use crate::search::a_star::a_star;
pub use crate::search::basic::{bfs, dfs};
pub use crate::search::dijkstra::dijkstra;
pub use crate::search::frontier::{Frontier, FrontierEntry};
pub use crate::search::median::Median;
pub use crate::search::{get_path, Graph, Weighted};
