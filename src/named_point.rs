//! A sample tagged with the dotted name of its metric.
use vstd::prelude::*;
use vstd::string::*;

use crate::point::Point;

verus! {

/// A dot becomes a path separator.
pub open spec fn path_char(c: char) -> char {
    if c == '.' {
        '/'
    } else {
        c
    }
}

/// The file of metric `name`, relative to the store's base directory:
/// every dot becomes a separator, and `.wsp` is appended.
pub open spec fn rel_path_of(name: Seq<char>) -> Seq<char> {
    name.map_values(|c: char| path_char(c)) + ".wsp"@
}

#[derive(Debug, PartialEq)]
pub struct NamedPoint {
    pub metric_name: String,
    pub point: Point,
}

impl NamedPoint {
    /// A point at `timestamp` whose value has the IEEE-754 bits `value`.
    pub fn new(name: String, timestamp: u32, value: u64) -> (r: NamedPoint)
        ensures
            r.metric_name@ == name@,
            r.point == Point(timestamp, value),
    {
        NamedPoint { metric_name: name, point: Point(timestamp, value) }
    }

    /// The path of this metric's file relative to the base directory.
    pub fn rel_path(&self) -> (r: String)
        ensures
            r@ == rel_path_of(self.metric_name@),
    {
        let name = self.metric_name.as_str();
        let n = name.unicode_len();
        let mut r = String::new();
        let mut i: usize = 0;
        while i < n
            invariant
                n == name@.len(),
                name@ == self.metric_name@,
                i <= n,
                r@ == name@.subrange(0, i as int).map_values(|c: char| path_char(c)),
            decreases n - i,
        {
            if name.get_char(i) == '.' {
                r.append("/");
            } else {
                r.append(name.substring_char(i, i + 1));
            }
            proof {
                reveal_strlit("/");
            }
            assert(r@ =~= name@.subrange(0, i + 1).map_values(|c: char| path_char(c)));
            i = i + 1;
        }
        assert(name@.subrange(0, n as int) =~= name@);
        r.append(".wsp");
        r
    }

    pub fn point(&self) -> (r: &Point)
        ensures
            *r == self.point,
    {
        &self.point
    }
}

} // verus!
