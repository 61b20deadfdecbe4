//! Paths compared as `std::path::Path` compares them on Unix: by their
//! components, so that `a/b`, `a//b`, `a/./b` and `a/b/` are the same path,
//! while `./a/b` starts with an extra current-directory component.
use vstd::prelude::*;

use crate::queue::texts;
use crate::text::{chars_of, text_eq};

verus! {

/// The pieces of `s` between its slashes (a text without slashes is one
/// piece).
pub open spec fn split_slash(s: Seq<char>) -> Seq<Seq<char>>
    decreases s.len(),
{
    if s.len() == 0 {
        seq![Seq::empty()]
    } else {
        let p = split_slash(s.drop_last());
        if s.last() == '/' {
            p.push(Seq::empty())
        } else {
            p.update(p.len() - 1, p.last().push(s.last()))
        }
    }
}

pub proof fn lemma_split_slash_len(s: Seq<char>)
    ensures
        split_slash(s).len() >= 1,
    decreases s.len(),
{
    if s.len() > 0 {
        lemma_split_slash_len(s.drop_last());
    }
}

/// A piece that is a component of its own: not empty, and not `.`.
pub open spec fn is_normal_piece(p: Seq<char>) -> bool {
    p.len() > 0 && p != seq!['.']
}

/// `is_normal_piece` as a value.
pub open spec fn normal_piece() -> spec_fn(Seq<char>) -> bool {
    |p: Seq<char>| is_normal_piece(p)
}

/// The components of a path: whether it starts at the root, whether it
/// starts with a current-directory component (`.` alone or followed by a
/// slash), and its other components. Empty pieces and `.` pieces elsewhere
/// are no components.
pub open spec fn path_key(s: Seq<char>) -> (bool, bool, Seq<Seq<char>>) {
    (
        s.len() > 0 && s[0] == '/',
        s.len() > 0 && s[0] == '.' && (s.len() == 1 || s[1] == '/'),
        split_slash(s).filter(normal_piece()),
    )
}

/// The components of a path.
pub struct PathKey {
    pub rooted: bool,
    pub cur_dir: bool,
    pub parts: Vec<String>,
}

impl View for PathKey {
    type V = (bool, bool, Seq<Seq<char>>);

    open spec fn view(&self) -> (bool, bool, Seq<Seq<char>>) {
        (self.rooted, self.cur_dir, texts(self.parts@))
    }
}

/// The components of the path `s`.
pub fn path_key_of(s: &str) -> (key: PathKey)
    ensures
        key@ == path_key(s@),
{
    let v = chars_of(s);
    let n: usize = v.len();
    let ghost normal = normal_piece();
    let mut parts: Vec<String> = Vec::new();
    let ghost mut done: Seq<Seq<char>> = Seq::empty();
    let mut start: usize = 0;
    let mut i: usize = 0;
    proof {
        reveal(Seq::filter);
        assert(v@.take(0) =~= Seq::<char>::empty());
        assert(v@.subrange(0, 0) =~= Seq::<char>::empty());
        assert(split_slash(v@.take(0)) =~= done.push(v@.subrange(0, 0)));
        assert(texts(parts@) =~= Seq::empty());
    }
    while i < n
        invariant
            v@ == s@,
            n == v.len(),
            normal == normal_piece(),
            start <= i <= n,
            split_slash(v@.take(i as int)) == done.push(v@.subrange(start as int, i as int)),
            texts(parts@) == done.filter(normal),
        decreases n - i,
    {
        let c = v[i];
        let ghost cur = v@.subrange(start as int, i as int);
        proof {
            assert(v@.take(i + 1).drop_last() =~= v@.take(i as int));
            assert(v@.take(i + 1).last() == c);
        }
        if c == '/' {
            let piece_len: usize = i - start;
            let is_dot = piece_len == 1 && v[start] == '.';
            proof {
                if piece_len == 1 {
                    if v[start as int] == '.' {
                        assert(cur =~= seq!['.']);
                    } else {
                        assert(cur[0] != seq!['.'][0]);
                    }
                }
                if piece_len != 1 {
                    assert(cur.len() != seq!['.'].len());
                }
                done.lemma_filter_push(cur, normal);
            }
            if piece_len > 0 && !is_dot {
                let ghost before = parts@;
                let piece = s.substring_char(start, i).to_owned();
                parts.push(piece);
                proof {
                    assert(texts(parts@) =~= texts(before).push(cur));
                }
            }
            proof {
                done = done.push(cur);
                assert(v@.subrange(i + 1, i + 1) =~= Seq::<char>::empty());
                assert(split_slash(v@.take(i + 1)) =~= done.push(v@.subrange(i + 1, i + 1)));
            }
            start = i + 1;
        } else {
            proof {
                assert(v@.subrange(start as int, i + 1) =~= cur.push(c));
                let p = done.push(cur);
                assert(split_slash(v@.take(i + 1)) == p.update(p.len() - 1, p.last().push(c)));
                assert(p.update(p.len() - 1, p.last().push(c)) =~= done.push(cur.push(c)));
            }
        }
        i = i + 1;
    }
    let ghost cur = v@.subrange(start as int, n as int);
    let piece_len: usize = n - start;
    let is_dot = piece_len == 1 && v[start] == '.';
    proof {
        if piece_len == 1 {
            if v[start as int] == '.' {
                assert(cur =~= seq!['.']);
            } else {
                assert(cur[0] != seq!['.'][0]);
            }
        }
        if piece_len != 1 {
            assert(cur.len() != seq!['.'].len());
        }
        done.lemma_filter_push(cur, normal);
        assert(v@.take(n as int) =~= v@);
    }
    if piece_len > 0 && !is_dot {
        let ghost before = parts@;
        let piece = s.substring_char(start, n).to_owned();
        parts.push(piece);
        proof {
            assert(texts(parts@) =~= texts(before).push(cur));
        }
    }
    let rooted = n > 0 && v[0] == '/';
    let cur_dir = n > 0 && v[0] == '.' && (n == 1 || v[1] == '/');
    PathKey { rooted, cur_dir, parts }
}

/// Whether two path keys are the same.
pub fn same_key(a: &PathKey, b: &PathKey) -> (r: bool)
    ensures
        r == (a@ == b@),
{
    if a.rooted != b.rooted || a.cur_dir != b.cur_dir || a.parts.len() != b.parts.len() {
        assert(texts(a.parts@).len() == a.parts.len() && texts(b.parts@).len() == b.parts.len());
        return false;
    }
    let ghost pa = texts(a.parts@);
    let ghost pb = texts(b.parts@);
    let mut i: usize = 0;
    while i < a.parts.len()
        invariant
            pa == texts(a.parts@),
            pb == texts(b.parts@),
            a.parts.len() == b.parts.len(),
            i <= a.parts.len(),
            forall|k: int| 0 <= k < i ==> pa[k] == pb[k],
        decreases a.parts.len() - i,
    {
        if !text_eq(a.parts[i].as_str(), b.parts[i].as_str()) {
            assert(pa[i as int] != pb[i as int]);
            return false;
        }
        i = i + 1;
    }
    assert(pa =~= pb);
    true
}

/// Whether `a` and `b` name the same path.
pub fn same_path(a: &str, b: &str) -> (r: bool)
    ensures
        r == (path_key(a@) == path_key(b@)),
{
    let ka = path_key_of(a);
    let kb = path_key_of(b);
    same_key(&ka, &kb)
}

} // verus!
