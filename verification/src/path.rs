//! Dropbox destination paths: normalizing the `DEST` argument and joining a
//! folder with a relative path.

use vstd::prelude::*;
use crate::text::{chars_of, is_white_space, lemma_trimmed_ends, lemma_trimmed_fixed, push_char, string_of, trim, trimmed};

verus! {

/// The Dropbox path that `DEST` names: trimmed of white space, `/` when
/// nothing is left, and with a `/` put in front when it does not start with one.
pub open spec fn normalized_dropbox_path(dest: Seq<char>) -> Seq<char> {
    let t = trimmed(dest);
    if t.len() == 0 {
        seq!['/']
    } else if t[0] == '/' {
        t
    } else {
        seq!['/'] + t
    }
}

/// Normalize `DEST` to a Dropbox path starting with `/`.
pub fn normalize_dropbox_path(dest: &str) -> (p: String)
    ensures
        p@ == normalized_dropbox_path(dest@),
        p@.len() > 0,
        p@[0] == '/',
{
    let t = trim(dest);
    let tv = chars_of(t);
    let mut out: String = String::new();
    if tv.len() == 0 {
        push_char(&mut out, '/');
        assert(out@ =~= seq!['/']);
    } else if tv[0] == '/' {
        out = string_of(&tv);
    } else {
        push_char(&mut out, '/');
        let mut i: usize = 0;
        while i < tv.len()
            invariant
                i <= tv@.len(),
                out@ == seq!['/'] + tv@.take(i as int),
            decreases tv@.len() - i,
        {
            push_char(&mut out, tv[i]);
            assert(tv@.take(i + 1) =~= tv@.take(i as int).push(tv@[i as int]));
            i = i + 1;
        }
        assert(tv@.take(tv@.len() as int) =~= tv@);
    }
    out
}

/// `s` with every `\` replaced by `/`.
pub open spec fn forward_slashes(s: Seq<char>) -> Seq<char> {
    s.map_values(|c: char| if c == '\\' { '/' } else { c })
}

/// `s` without its trailing `/` characters, as `trim_end_matches('/')` leaves it.
pub open spec fn trim_end_slashes(s: Seq<char>) -> Seq<char>
    decreases s.len(),
{
    if s.len() > 0 && s.last() == '/' {
        trim_end_slashes(s.drop_last())
    } else {
        s
    }
}

/// The Dropbox path of `rel` below the folder `base`: `base` without trailing
/// `/`, then `/` and `rel` with `\` turned into `/`; just the folder when `rel`
/// is empty or `.`.
pub open spec fn joined_dropbox_path(base: Seq<char>, rel: Seq<char>) -> Seq<char> {
    let r = forward_slashes(rel);
    let b = trim_end_slashes(base);
    if r.len() == 0 || r == seq!['.'] {
        b
    } else {
        b + seq!['/'] + r
    }
}

/// What `trim_end_slashes` leaves is a prefix of its input.
pub proof fn lemma_trim_end_slashes_prefix(s: Seq<char>)
    ensures
        trim_end_slashes(s).len() <= s.len(),
        trim_end_slashes(s) == s.take(trim_end_slashes(s).len() as int),
    decreases s.len(),
{
    if s.len() > 0 && s.last() == '/' {
        lemma_trim_end_slashes_prefix(s.drop_last());
        assert(s.drop_last().take(trim_end_slashes(s).len() as int) =~= s.take(
            trim_end_slashes(s).len() as int,
        ));
    } else {
        assert(s.take(s.len() as int) =~= s);
    }
}

/// Join a Dropbox folder prefix with a relative path using `/` separators.
/// `rel` is the relative path as text (what `Path::to_string_lossy` gives).
pub fn join_dropbox_path(base: &str, rel: &str) -> (p: String)
    ensures
        p@ == joined_dropbox_path(base@, rel@),
{
    let bv = chars_of(base);
    let rv = chars_of(rel);
    let mut end: usize = bv.len();
    assert(bv@.take(end as int) =~= bv@);
    while end > 0 && bv[end - 1] == '/'
        invariant
            end <= bv@.len(),
            trim_end_slashes(bv@) == trim_end_slashes(bv@.take(end as int)),
        decreases end,
    {
        assert(bv@.take(end as int).drop_last() =~= bv@.take(end - 1));
        end = end - 1;
    }
    let ghost b = bv@.take(end as int);
    assert(trim_end_slashes(b) == b);
    let mut out = String::new();
    let mut i: usize = 0;
    while i < end
        invariant
            end <= bv@.len(),
            i <= end,
            out@ == bv@.take(i as int),
        decreases end - i,
    {
        push_char(&mut out, bv[i]);
        assert(bv@.take(i + 1) =~= bv@.take(i as int).push(bv@[i as int]));
        i = i + 1;
    }
    let ghost r = forward_slashes(rel@);
    if rv.len() == 0 || (rv.len() == 1 && rv[0] == '.') {
        assert(r.len() == 0 || r =~= seq!['.']);
        return out;
    }
    assert(!(r.len() == 0 || r == seq!['.'])) by {
        if r == seq!['.'] {
            assert(r[0] == '.');
            assert(rv@[0] == '.');
        }
    }
    push_char(&mut out, '/');
    let mut j: usize = 0;
    while j < rv.len()
        invariant
            rv@ == rel@,
            j <= rv@.len(),
            out@ == b + seq!['/'] + forward_slashes(rel@).take(j as int),
        decreases rv@.len() - j,
    {
        let c = rv[j];
        if c == '\\' {
            push_char(&mut out, '/');
        } else {
            push_char(&mut out, c);
        }
        assert(forward_slashes(rel@).take(j + 1) =~= forward_slashes(rel@).take(j as int).push(
            forward_slashes(rel@)[j as int],
        ));
        j = j + 1;
    }
    assert(forward_slashes(rel@).take(rv@.len() as int) =~= forward_slashes(rel@));
    out
}

/// Normalizing a path that is already normalized leaves it unchanged.
pub proof fn law_normalize_idempotent(dest: Seq<char>)
    ensures
        normalized_dropbox_path(normalized_dropbox_path(dest)) == normalized_dropbox_path(dest),
{
    let t = trimmed(dest);
    let p = normalized_dropbox_path(dest);
    lemma_trimmed_ends(dest);
    assert(!is_white_space('/'));
    if t.len() == 0 {
        assert(p.last() == '/');
        lemma_trimmed_fixed(p);
    } else if t[0] == '/' {
        lemma_trimmed_fixed(p);
    } else {
        assert(p[0] == '/');
        assert(p.last() == t.last());
        lemma_trimmed_fixed(p);
    }
}

/// Every Dropbox path built below a normalized destination, for a relative
/// path that is neither empty nor `.`, is absolute: it starts with `/`.
pub proof fn law_joined_below_destination_is_absolute(dest: Seq<char>, rel: Seq<char>)
    requires
        rel.len() > 0,
        rel != seq!['.'],
    ensures
        joined_dropbox_path(normalized_dropbox_path(dest), rel)[0] == '/',
        joined_dropbox_path(normalized_dropbox_path(dest), rel).len() > 0,
{
    let p = normalized_dropbox_path(dest);
    let r = forward_slashes(rel);
    let b = trim_end_slashes(p);
    lemma_trim_end_slashes_prefix(p);
    assert(p[0] == '/');
    assert(r.len() == rel.len());
    if r == seq!['.'] {
        assert(r[0] == '.');
        assert(rel[0] == '.');
        assert(rel =~= seq!['.']);
    }
    if b.len() > 0 {
        assert(b[0] == p[0]);
    }
}

/// Splitting the bytes of a relative path at `/` (byte 0x2F), left to right: the
/// components completed so far and the one being read.
pub open spec fn split_state(s: Seq<u8>) -> (Seq<Seq<u8>>, Seq<u8>)
    decreases s.len(),
{
    if s.len() == 0 {
        (seq![], seq![])
    } else {
        let (done, cur) = split_state(s.drop_last());
        if s.last() == 0x2Fu8 {
            if cur.len() > 0 {
                (done.push(cur), seq![])
            } else {
                (done, seq![])
            }
        } else {
            (done, cur.push(s.last()))
        }
    }
}

/// The components of a relative path given by its bytes: the non-empty
/// pieces between `/` separators, in order.
pub open spec fn components(s: Seq<u8>) -> Seq<Seq<u8>> {
    let (done, cur) = split_state(s);
    if cur.len() > 0 {
        done.push(cur)
    } else {
        done
    }
}

/// The components of the relative path `v`.
pub fn split_components(v: &Vec<u8>) -> (c: Vec<Vec<u8>>)
    ensures
        c.deep_view() == components(v@),
{
    let mut done: Vec<Vec<u8>> = Vec::new();
    let mut cur: Vec<u8> = Vec::new();
    let mut i: usize = 0;
    assert(v@.take(0) =~= Seq::<u8>::empty());
    while i < v.len()
        invariant
            i <= v@.len(),
            (done.deep_view(), cur@) == split_state(v@.take(i as int)),
        decreases v@.len() - i,
    {
        assert(v@.take(i + 1).drop_last() =~= v@.take(i as int));
        assert(v@.take(i + 1).last() == v@[i as int]);
        let c = v[i];
        if c == 0x2Fu8 {
            if cur.len() > 0 {
                let ghost before = done.deep_view();
                let ghost piece = cur@;
                assert(cur.deep_view() =~= cur@);
                done.push(cur);
                cur = Vec::new();
                assert(done.deep_view() =~= before.push(piece));
            }
        } else {
            cur.push(c);
        }
        i = i + 1;
    }
    assert(v@.take(v@.len() as int) =~= v@);
    if cur.len() > 0 {
        let ghost before = done.deep_view();
        let ghost piece = cur@;
        assert(cur.deep_view() =~= cur@);
        done.push(cur);
        assert(done.deep_view() =~= before.push(piece));
    }
    done
}

/// Splitting continues the same way after a separator: from a state with
/// nothing being read, reading `b` adds what splitting `b` alone gives.
proof fn lemma_split_state_append(x: Seq<u8>, b: Seq<u8>)
    requires
        split_state(x).1.len() == 0,
    ensures
        split_state(x + b) == (split_state(x).0 + split_state(b).0, split_state(b).1),
    decreases b.len(),
{
    if b.len() == 0 {
        assert(x + b =~= x);
        assert(split_state(x).0 + split_state(b).0 =~= split_state(x).0);
    } else {
        assert((x + b).drop_last() =~= x + b.drop_last());
        assert((x + b).last() == b.last());
        lemma_split_state_append(x, b.drop_last());
        let (d0, _) = split_state(x);
        let (db, cb) = split_state(b.drop_last());
        if b.last() == 0x2Fu8 && cb.len() > 0 {
            assert((d0 + db).push(cb) =~= d0 + db.push(cb));
        }
    }
}

/// A piece without separators is read whole.
proof fn lemma_split_state_piece(s: Seq<u8>)
    requires
        forall|i: int| 0 <= i < s.len() ==> s[i] != 0x2Fu8,
    ensures
        split_state(s) == (Seq::<Seq<u8>>::empty(), s),
    decreases s.len(),
{
    if s.len() > 0 {
        lemma_split_state_piece(s.drop_last());
        assert(s.drop_last().push(s.last()) =~= s);
    }
}

/// The components of a relative path are all its `/`-separated pieces, in
/// order, with the empty ones dropped: none is empty or holds a `/`; a path
/// without `/` is one component (none when empty); and the components of
/// `a/b` are those of `a` followed by those of `b`. These determine the
/// components of every path, so two paths have the same components exactly
/// when they are the same pieces in the same order.
pub proof fn law_components_are_the_pieces(a: Seq<u8>, b: Seq<u8>)
    ensures
        forall|i: int| 0 <= i < components(a).len() ==> #[trigger] components(a)[i].len() > 0,
        forall|i: int, j: int| 0 <= i < components(a).len() && 0 <= j < components(a)[i].len() ==> #[trigger] components(a)[i][j] != 0x2Fu8,
        (forall|i: int| 0 <= i < a.len() ==> a[i] != 0x2Fu8) ==> components(a) == (if a.len() == 0 { Seq::<Seq<u8>>::empty() } else { seq![a] }),
        components(a + seq![0x2Fu8] + b) == components(a) + components(b),
{
    lemma_components_pieces_wf(a);
    if forall|i: int| 0 <= i < a.len() ==> a[i] != 0x2Fu8 {
        lemma_split_state_piece(a);
    }
    let x = a + seq![0x2Fu8];
    assert(x.drop_last() =~= a);
    assert(split_state(x).0 == components(a));
    assert(split_state(x).1.len() == 0);
    lemma_split_state_append(x, b);
    let (db, cb) = split_state(b);
    if cb.len() > 0 {
        assert((components(a) + db).push(cb) =~= components(a) + db.push(cb));
    }
}

/// Every component is non-empty and holds no `/`.
proof fn lemma_components_pieces_wf(s: Seq<u8>)
    ensures
        forall|i: int| 0 <= i < split_state(s).0.len() ==> #[trigger] split_state(s).0[i].len() > 0,
        forall|i: int, j: int| 0 <= i < split_state(s).0.len() && 0 <= j < split_state(s).0[i].len() ==> #[trigger] split_state(s).0[i][j] != 0x2Fu8,
        forall|j: int| 0 <= j < split_state(s).1.len() ==> #[trigger] split_state(s).1[j] != 0x2Fu8,
        forall|i: int| 0 <= i < components(s).len() ==> #[trigger] components(s)[i].len() > 0,
        forall|i: int, j: int| 0 <= i < components(s).len() && 0 <= j < components(s)[i].len() ==> #[trigger] components(s)[i][j] != 0x2Fu8,
    decreases s.len(),
{
    let (d, c) = split_state(s);
    if s.len() > 0 {
        let t = s.drop_last();
        lemma_components_pieces_wf(t);
        let (d0, c0) = split_state(t);
        if s.last() == 0x2Fu8 {
            if c0.len() > 0 {
                assert(d == d0.push(c0));
                assert forall|i: int| 0 <= i < d.len() implies #[trigger] d[i].len() > 0 by {
                    if i < d0.len() {
                        assert(d[i] == d0[i]);
                    }
                }
                assert forall|i: int, j: int| 0 <= i < d.len() && 0 <= j < d[i].len() implies #[trigger] d[i][j] != 0x2Fu8 by {
                    if i < d0.len() {
                        assert(d[i] == d0[i]);
                    } else {
                        assert(d[i] == c0);
                    }
                }
            }
        } else {
            assert(d == d0 && c == c0.push(s.last()));
            assert forall|j: int| 0 <= j < c.len() implies #[trigger] c[j] != 0x2Fu8 by {
                if j < c0.len() {
                    assert(c[j] == c0[j]);
                }
            }
        }
    }
    let comps = components(s);
    assert forall|i: int| 0 <= i < comps.len() implies #[trigger] comps[i].len() > 0 by {
        if i < d.len() {
            assert(comps[i] == d[i]);
        }
    }
    assert forall|i: int, j: int| 0 <= i < comps.len() && 0 <= j < comps[i].len() implies #[trigger] comps[i][j] != 0x2Fu8 by {
        if i < d.len() {
            assert(comps[i] == d[i]);
        } else {
            assert(comps[i] == c);
        }
    }
}

/// `DEST` keeps its text: with `t` the trimmed `DEST`, the result is `/`
/// when `t` is empty, `t` itself when it starts with `/`, and otherwise a
/// `/` followed by every character of `t`, unchanged and in order.
pub proof fn law_normalize_keeps_text(dest: Seq<char>)
    ensures
        ({
            let t = trimmed(dest);
            let p = normalized_dropbox_path(dest);
            &&& t.len() == 0 ==> p.len() == 1 && p[0] == '/'
            &&& t.len() > 0 && t[0] == '/' ==> p.len() == t.len() && forall|k: int| 0 <= k < t.len() ==> #[trigger] p[k] == t[k]
            &&& t.len() > 0 && t[0] != '/' ==> p.len() == t.len() + 1 && p[0] == '/' && forall|k: int| 0 <= k < t.len() ==> #[trigger] p[k + 1] == t[k]
        }),
{
}

/// Dropping trailing slashes leaves a prefix that does not end with `/`,
/// and everything dropped is `/`.
pub proof fn law_trim_end_slashes(s: Seq<char>)
    ensures
        trim_end_slashes(s).len() <= s.len(),
        forall|k: int| 0 <= k < trim_end_slashes(s).len() ==> #[trigger] trim_end_slashes(s)[k] == s[k],
        forall|k: int| trim_end_slashes(s).len() <= k < s.len() ==> #[trigger] s[k] == '/',
        trim_end_slashes(s).len() > 0 ==> trim_end_slashes(s).last() != '/',
    decreases s.len(),
{
    if s.len() > 0 && s.last() == '/' {
        let d = s.drop_last();
        law_trim_end_slashes(d);
        assert forall|k: int| 0 <= k < trim_end_slashes(s).len() implies #[trigger] trim_end_slashes(s)[k] == s[k] by {
            assert(trim_end_slashes(d)[k] == d[k]);
        }
        assert forall|k: int| trim_end_slashes(s).len() <= k < s.len() implies #[trigger] s[k] == '/' by {
            if k < d.len() {
                assert(s[k] == d[k]);
            }
        }
    }
}

/// Joining keeps the relative path: for a relative path that is neither
/// empty nor `.`, the result is the folder without trailing slashes, then
/// `/`, then the relative path with each `\` turned into `/` and every other
/// character kept as it is; for an empty or `.` one, the folder without
/// trailing slashes.
pub proof fn law_join_keeps_relative_path(base: Seq<char>, rel: Seq<char>)
    ensures
        ({
            let b = trim_end_slashes(base);
            let p = joined_dropbox_path(base, rel);
            &&& (rel.len() == 0 || rel == seq!['.']) ==> p == b
            &&& !(rel.len() == 0 || rel == seq!['.']) ==> {
                &&& p.len() == b.len() + 1 + rel.len()
                &&& forall|k: int| 0 <= k < b.len() ==> #[trigger] p[k] == b[k]
                &&& p[b.len() as int] == '/'
                &&& forall|k: int| 0 <= k < rel.len() ==> #[trigger] p[b.len() + 1 + k] == (if rel[k] == '\\' { '/' } else { rel[k] })
            }
        }),
{
    let r = forward_slashes(rel);
    if rel.len() == 0 {
        assert(r.len() == 0);
    } else if rel == seq!['.'] {
        assert(r =~= seq!['.']);
    } else {
        assert(r != seq!['.']) by {
            if r == seq!['.'] {
                assert(r[0] == '.');
                assert(rel[0] == '.');
                assert(rel =~= seq!['.']);
            }
        }
        let b = trim_end_slashes(base);
        let p = joined_dropbox_path(base, rel);
        assert forall|k: int| 0 <= k < rel.len() implies #[trigger] p[b.len() + 1 + k] == (if rel[k] == '\\' { '/' } else { rel[k] }) by {
            assert(p[b.len() + 1 + k] == r[k]);
        }
    }
}

} // verus!
