//! Names for generated code: the module path of a Protobuf package and the
//! file that its code goes to.

pub mod code_generator;
pub mod ident;

use self::ident::{snake_case_of, to_snake};
use crate::std_text::string_push;
use vstd::prelude::*;

verus! {

/// The parts of a package name: the pieces between its dots that are not
/// empty. Read from index `i` on, with the piece `cur` begun and the pieces
/// `done` behind it.
pub open spec fn package_parts(s: Seq<char>, i: int, cur: Seq<char>, done: Seq<Seq<char>>) -> Seq<
    Seq<char>,
>
    decreases s.len() - i,
{
    if i >= s.len() {
        if cur.len() > 0 {
            done.push(cur)
        } else {
            done
        }
    } else if s[i] == '.' {
        if cur.len() > 0 {
            package_parts(s, i + 1, Seq::empty(), done.push(cur))
        } else {
            package_parts(s, i + 1, Seq::empty(), done)
        }
    } else {
        package_parts(s, i + 1, cur.push(s[i]), done)
    }
}

/// The parts with `sep` between them.
pub open spec fn joined(parts: Seq<Seq<char>>, sep: Seq<char>) -> Seq<char>
    decreases parts.len(),
{
    if parts.len() == 0 {
        Seq::empty()
    } else if parts.len() == 1 {
        parts[0]
    } else {
        joined(parts.drop_last(), sep) + sep + parts.last()
    }
}

/// The text with an underscore for every dot.
pub open spec fn dots_to_underscores(s: Seq<char>) -> Seq<char> {
    s.map_values(
        |c: char|
            if c == '.' {
                '_'
            } else {
                c
            },
    )
}

/// Whether the text ends in `.rs`.
pub open spec fn ends_with_rs(s: Seq<char>) -> bool {
    s.len() >= 3 && s[s.len() - 3] == '.' && s[s.len() - 2] == 'r' && s[s.len() - 1] == 's'
}

/// The name of the file for a module path, or for `default` where the path
/// is empty: the parts joined, without a `.rs` that may end them, with an
/// underscore for every dot, and `.rs` behind.
pub open spec fn file_name(parts: Seq<Seq<char>>, default: Seq<char>) -> Seq<char> {
    let root = if parts.len() == 0 {
        default
    } else {
        joined(parts, seq!['.'])
    };
    let stem = if ends_with_rs(root) {
        root.take(root.len() - 3)
    } else {
        root
    };
    dots_to_underscores(stem) + seq!['.', 'r', 's']
}

/// The parts of a package name: the pieces between its dots that are not
/// empty, in their order.
pub fn split_package_name(name: &str) -> (parts: Vec<String>)
    ensures
        parts@.map_values(|p: String| p@) == package_parts(
            name@,
            0,
            Seq::empty(),
            Seq::empty(),
        ),
{
    let ghost s = name@;
    let mut parts: Vec<String> = Vec::new();
    let mut cur = String::new();
    let len = name.unicode_len();
    let mut i: usize = 0;
    assert(parts@.map_values(|p: String| p@) =~= Seq::<Seq<char>>::empty());
    while i < len
        invariant
            s == name@,
            len == s.len(),
            i <= len,
            package_parts(s, 0, Seq::empty(), Seq::empty()) == package_parts(
                s,
                i as int,
                cur@,
                parts@.map_values(|p: String| p@),
            ),
        decreases len - i,
    {
        let c = name.get_char(i);
        if c == '.' {
            if !cur.as_str().is_empty() {
                let ghost before = parts@.map_values(|p: String| p@);
                let ghost text = cur@;
                parts.push(cur);
                assert(parts@.map_values(|p: String| p@) =~= before.push(text));
            }
            cur = String::new();
        } else {
            string_push(&mut cur, c);
        }
        i += 1;
    }
    if !cur.as_str().is_empty() {
        let ghost before = parts@.map_values(|p: String| p@);
        let ghost text = cur@;
        parts.push(cur);
        assert(parts@.map_values(|p: String| p@) =~= before.push(text));
    }
    parts
}

/// A Rust module path for a Protobuf package.
#[derive(Clone, Debug, PartialEq, Eq, Hash, PartialOrd, Ord)]
pub struct Module {
    components: Vec<String>,
}

impl View for Module {
    type V = Seq<Seq<char>>;

    /// The parts of the path.
    closed spec fn view(&self) -> Seq<Seq<char>> {
        self.components@.map_values(|c: String| c@)
    }
}

impl Module {
    /// Construct a module path from its parts.
    pub fn from_parts(parts: Vec<String>) -> (m: Module)
        ensures
            m@ == parts@.map_values(|c: String| c@),
    {
        Module { components: parts }
    }

    /// Construct a module path from a Protobuf package name.
    ///
    /// Constituent parts are automatically converted to snake case in order
    /// to follow Rust module naming conventions.
    pub fn from_protobuf_package_name(name: &str) -> (m: Module)
        ensures
            m@ == package_parts(name@, 0, Seq::empty(), Seq::empty()).map_values(
                |part: Seq<char>| snake_case_of(part),
            ),
    {
        let parts = split_package_name(name);
        let ghost done = parts@.map_values(|p: String| p@);
        let mut components: Vec<String> = Vec::new();
        let mut i: usize = 0;
        while i < parts.len()
            invariant
                done == parts@.map_values(|p: String| p@),
                i <= parts@.len(),
                components@.len() == i,
                forall|k: int|
                    0 <= k < i ==> (#[trigger] components@[k])@ == snake_case_of(done[k]),
            decreases parts@.len() - i,
        {
            assert(done[i as int] == parts@[i as int]@);
            let part = to_snake(parts[i].as_str());
            components.push(part);
            i += 1;
        }
        let m = Module { components };
        assert(m@ =~= done.map_values(|part: Seq<char>| snake_case_of(part)));
        m
    }

    /// The parts of the path.
    pub fn parts(&self) -> (parts: Vec<&str>)
        ensures
            parts@.map_values(|p: &str| p@) == self@,
    {
        let mut parts: Vec<&str> = Vec::new();
        let mut i: usize = 0;
        while i < self.components.len()
            invariant
                i <= self.components@.len(),
                parts@.len() == i,
                forall|k: int| 0 <= k < i ==> (#[trigger] parts@[k])@ == self@[k],
            decreases self.components@.len() - i,
        {
            let part = self.components[i].as_str();
            parts.push(part);
            i += 1;
        }
        assert(parts@.map_values(|p: &str| p@) =~= self@);
        parts
    }

    /// The first `count` parts with a dot between them.
    fn joined_parts(&self, count: usize) -> (root: String)
        requires
            count <= self@.len(),
        ensures
            root@ == joined(self@.take(count as int), seq!['.']),
    {
        proof {
            reveal_strlit(".");
        }
        let mut root = String::new();
        let mut i: usize = 0;
        while i < count
            invariant
                count <= self@.len(),
                i <= count,
                root@ == joined(self@.take(i as int), seq!['.']),
                "."@ == seq!['.'],
            decreases count - i,
        {
            proof {
                assert(self@.take(i + 1).drop_last() =~= self@.take(i as int));
                assert(self@.take(i + 1).last() == self.components@[i as int]@);
            }
            if i > 0 {
                root.append(".");
            } else {
                assert(Seq::<char>::empty() + self.components@[0]@ =~= self.components@[0]@);
            }
            root.append(self.components[i].as_str());
            i += 1;
        }
        root
    }

    /// Format the module path into a filename for generated Rust code.
    ///
    /// If the module path is empty, `default` is used to provide the root
    /// of the filename.
    pub fn to_file_name_or(&self, default: &str) -> (name: String)
        ensures
            name@ == file_name(self@, default@),
    {
        let root = if self.components.is_empty() {
            String::from_str(default)
        } else {
            let root = self.joined_parts(self.components.len());
            assert(self@.take(self@.len() as int) =~= self@);
            root
        };
        let root = root.as_str();
        let len = root.unicode_len();
        let ends = len >= 3 && root.get_char(len - 3) == '.' && root.get_char(len - 2) == 'r'
            && root.get_char(len - 1) == 's';
        let stem_len = if ends {
            len - 3
        } else {
            len
        };
        let mut name = String::new();
        let mut i: usize = 0;
        while i < stem_len
            invariant
                stem_len <= root@.len(),
                i <= stem_len,
                name@ == dots_to_underscores(root@.take(i as int)),
            decreases stem_len - i,
        {
            let c = root.get_char(i);
            assert(dots_to_underscores(root@.take(i + 1)) =~= dots_to_underscores(
                root@.take(i as int),
            ).push(
                if c == '.' {
                    '_'
                } else {
                    c
                },
            ));
            if c == '.' {
                string_push(&mut name, '_');
            } else {
                string_push(&mut name, c);
            }
            i += 1;
        }
        proof {
            reveal_strlit(".rs");
            if !ends {
                assert(root@.take(stem_len as int) =~= root@);
            }
        }
        name.append(".rs");
        assert("."@.len() >= 0);
        name
    }

    /// The number of parts in the module's path.
    pub fn len(&self) -> (n: usize)
        ensures
            n == self@.len(),
    {
        self.components.len()
    }

    /// Whether the module's path contains any components.
    pub fn is_empty(&self) -> (b: bool)
        ensures
            b == (self@.len() == 0),
    {
        self.components.is_empty()
    }

    /// The parts up to and with number `last`, with a dot between them.
    pub fn to_partial_file_name(&self, last: usize) -> (name: String)
        requires
            last < self@.len(),
        ensures
            name@ == joined(self@.take(last + 1), seq!['.']),
    {
        let total = self.components.len();
        assert(last < total);
        self.joined_parts(last + 1)
    }

    /// Part number `idx` of the path.
    pub fn part(&self, idx: usize) -> (part: &str)
        requires
            idx < self@.len(),
        ensures
            part@ == self@[idx as int],
    {
        self.components[idx].as_str()
    }
}

} // verus!
