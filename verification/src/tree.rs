use vstd::prelude::*;

verus! {

broadcast use vstd::std_specs::vec::axiom_vec_index_decreases;

/// A snapshot of reference metadata: a tagged tree of objects, arrays and
/// scalars.  A `Scalar` holds the serialized text of the leaf value (for
/// example `1` or `"EUR"`), so that comparing and reporting leaves never
/// needs to re-interpret them.
pub enum Tree {
    Object(Vec<(String, Tree)>),
    Array(Vec<Tree>),
    Scalar(String),
}

/// Structural equality of two trees, comparing keys and scalar texts by
/// their character sequences.
pub open spec fn tree_eq_spec(a: Tree, b: Tree) -> bool
    decreases a,
{
    match a {
        Tree::Scalar(sa) => match b {
            Tree::Scalar(sb) => sa@ == sb@,
            _ => false,
        },
        Tree::Array(ea) => match b {
            Tree::Array(eb) => ea@.len() == eb@.len() && forall|i: int|
                0 <= i < ea@.len() ==> tree_eq_spec(#[trigger] ea@[i], eb@[i]),
            _ => false,
        },
        Tree::Object(fa) => match b {
            Tree::Object(fb) => fa@.len() == fb@.len() && forall|i: int|
                0 <= i < fa@.len() ==> (#[trigger] fa@[i]).0@ == fb@[i].0@ && tree_eq_spec(
                    fa@[i].1,
                    fb@[i].1,
                ),
            _ => false,
        },
    }
}

/// A well-formed snapshot: within every object the keys are distinct, as
/// they are in the JSON documents the snapshots come from.
pub open spec fn tree_wf(t: Tree) -> bool
    decreases t,
{
    match t {
        Tree::Scalar(_) => true,
        Tree::Array(es) => forall|i: int| 0 <= i < es@.len() ==> tree_wf(#[trigger] es@[i]),
        Tree::Object(fs) => (forall|i: int, j: int|
            0 <= i < j < fs@.len() ==> (#[trigger] fs@[i]).0@ != (#[trigger] fs@[j]).0@)
            && forall|i: int| 0 <= i < fs@.len() ==> tree_wf((#[trigger] fs@[i]).1),
    }
}

/// Structural equality is reflexive.
pub proof fn lemma_tree_eq_reflexive(a: Tree)
    ensures
        tree_eq_spec(a, a),
    decreases a,
{
    match a {
        Tree::Scalar(_) => {},
        Tree::Array(ea) => {
            assert forall|i: int| 0 <= i < ea@.len() implies tree_eq_spec(
                #[trigger] ea@[i],
                ea@[i],
            ) by {
                lemma_tree_eq_reflexive(ea@[i]);
            }
        },
        Tree::Object(fa) => {
            assert forall|i: int| 0 <= i < fa@.len() implies (#[trigger] fa@[i]).0@ == fa@[i].0@
                && tree_eq_spec(fa@[i].1, fa@[i].1) by {
                lemma_tree_eq_reflexive(fa@[i].1);
            }
        },
    }
}

/// Decides structural equality.
pub fn tree_eq(a: &Tree, b: &Tree) -> (r: bool)
    ensures
        r == tree_eq_spec(*a, *b),
    decreases *a,
{
    match a {
        Tree::Scalar(sa) => match b {
            Tree::Scalar(sb) => sa.eq(sb),
            _ => false,
        },
        Tree::Array(ea) => match b {
            Tree::Array(eb) => {
                if ea.len() != eb.len() {
                    return false;
                }
                let mut i: usize = 0;
                while i < ea.len()
                    invariant
                        i <= ea@.len(),
                        ea@.len() == eb@.len(),
                        *a == Tree::Array(*ea),
                        *b == Tree::Array(*eb),
                        forall|j: int| 0 <= j < i ==> tree_eq_spec(#[trigger] ea@[j], eb@[j]),
                    decreases ea@.len() - i,
                {
                    proof {
                        assert(decreases_to!(*a => (*a)->Array_0));
                        assert((*a)->Array_0 == *ea);
                        assert(decreases_to!(*ea => ea@[i as int]));
                    }
                    if !tree_eq(&ea[i], &eb[i]) {
                        return false;
                    }
                    i += 1;
                }
                true
            },
            _ => false,
        },
        Tree::Object(fa) => match b {
            Tree::Object(fb) => {
                if fa.len() != fb.len() {
                    return false;
                }
                let mut i: usize = 0;
                while i < fa.len()
                    invariant
                        i <= fa@.len(),
                        fa@.len() == fb@.len(),
                        *a == Tree::Object(*fa),
                        *b == Tree::Object(*fb),
                        forall|j: int|
                            0 <= j < i ==> (#[trigger] fa@[j]).0@ == fb@[j].0@ && tree_eq_spec(
                                fa@[j].1,
                                fb@[j].1,
                            ),
                    decreases fa@.len() - i,
                {
                    if !fa[i].0.eq(&fb[i].0) {
                        return false;
                    }
                    proof {
                        assert(decreases_to!(*a => (*a)->Object_0));
                        assert((*a)->Object_0 == *fa);
                        assert(decreases_to!(*fa => fa@[i as int]));
                        assert(decreases_to!(fa@[i as int] => fa@[i as int].1));
                    }
                    if !tree_eq(&fa[i].1, &fb[i].1) {
                        return false;
                    }
                    i += 1;
                }
                true
            },
            _ => false,
        },
    }
}

/// The lowercase hex digit of a value below sixteen.
pub open spec fn hex_digit(v: int) -> char {
    if v == 0 {
        '0'
    } else if v == 1 {
        '1'
    } else if v == 2 {
        '2'
    } else if v == 3 {
        '3'
    } else if v == 4 {
        '4'
    } else if v == 5 {
        '5'
    } else if v == 6 {
        '6'
    } else if v == 7 {
        '7'
    } else if v == 8 {
        '8'
    } else if v == 9 {
        '9'
    } else if v == 10 {
        'a'
    } else if v == 11 {
        'b'
    } else if v == 12 {
        'c'
    } else if v == 13 {
        'd'
    } else if v == 14 {
        'e'
    } else {
        'f'
    }
}

/// How one character of an object key is written inside a quoted JSON
/// string: quote and backslash take an escape, the named control
/// characters take their short escapes, every other control character
/// below `0x20` is written as `\u00` and two lowercase hex digits, and
/// everything else stands as itself.
pub open spec fn escape_char(c: char) -> Seq<char> {
    if c == '"' {
        seq!['\\', '"']
    } else if c == '\\' {
        seq!['\\', '\\']
    } else if c == '\u{8}' {
        seq!['\\', 'b']
    } else if c == '\t' {
        seq!['\\', 't']
    } else if c == '\n' {
        seq!['\\', 'n']
    } else if c == '\u{c}' {
        seq!['\\', 'f']
    } else if c == '\r' {
        seq!['\\', 'r']
    } else if (c as int) < 32 {
        seq!['\\', 'u', '0', '0', hex_digit((c as int) / 16), hex_digit((c as int) % 16)]
    } else {
        seq![c]
    }
}

/// A key escaped character by character.
pub open spec fn escape_str(s: Seq<char>) -> Seq<char>
    decreases s.len(),
{
    if s.len() == 0 {
        Seq::empty()
    } else {
        escape_str(s.drop_last()) + escape_char(s.last())
    }
}

/// The serialized text of a tree: scalars stand as their stored text,
/// arrays as `[..]` with comma-separated elements, objects as `{..}` with
/// quoted keys.
pub open spec fn ser_spec(t: Tree) -> Seq<char>
    decreases t, 1int, 0int,
{
    match t {
        Tree::Scalar(s) => s@,
        Tree::Array(es) => seq!['['] + ser_items_spec(t, es@.len() as nat) + seq![']'],
        Tree::Object(fs) => seq!['{'] + ser_fields_spec(t, fs@.len() as nat) + seq!['}'],
    }
}

/// The serialized text of the first `n` elements of an array node.
pub open spec fn ser_items_spec(t: Tree, n: nat) -> Seq<char>
    decreases t, 0int, n,
{
    match t {
        Tree::Array(es) => if n == 0 || n > es@.len() {
            Seq::empty()
        } else {
            let item = ser_spec(es@[n - 1]);
            if n == 1 {
                item
            } else {
                ser_items_spec(t, (n - 1) as nat) + seq![','] + item
            }
        },
        _ => Seq::empty(),
    }
}

/// The serialized text of the first `n` fields of an object node.
pub open spec fn ser_fields_spec(t: Tree, n: nat) -> Seq<char>
    decreases t, 0int, n,
{
    match t {
        Tree::Object(fs) => if n == 0 || n > fs@.len() {
            Seq::empty()
        } else {
            let field = seq!['"'] + escape_str(fs@[n - 1].0@) + seq!['"'] + seq![':'] + ser_spec(
                fs@[n - 1].1,
            );
            if n == 1 {
                field
            } else {
                ser_fields_spec(t, (n - 1) as nat) + seq![','] + field
            }
        },
        _ => Seq::empty(),
    }
}

/// Appends one lowercase hex digit.
fn append_hex_digit(out: &mut String, v: u8)
    requires
        v < 16,
    ensures
        final(out)@ == old(out)@ + seq![hex_digit(v as int)],
{
    match v {
        0 => {
            out.append("0");
            proof {
                reveal_strlit("0");
            }
        },
        1 => {
            out.append("1");
            proof {
                reveal_strlit("1");
            }
        },
        2 => {
            out.append("2");
            proof {
                reveal_strlit("2");
            }
        },
        3 => {
            out.append("3");
            proof {
                reveal_strlit("3");
            }
        },
        4 => {
            out.append("4");
            proof {
                reveal_strlit("4");
            }
        },
        5 => {
            out.append("5");
            proof {
                reveal_strlit("5");
            }
        },
        6 => {
            out.append("6");
            proof {
                reveal_strlit("6");
            }
        },
        7 => {
            out.append("7");
            proof {
                reveal_strlit("7");
            }
        },
        8 => {
            out.append("8");
            proof {
                reveal_strlit("8");
            }
        },
        9 => {
            out.append("9");
            proof {
                reveal_strlit("9");
            }
        },
        10 => {
            out.append("a");
            proof {
                reveal_strlit("a");
            }
        },
        11 => {
            out.append("b");
            proof {
                reveal_strlit("b");
            }
        },
        12 => {
            out.append("c");
            proof {
                reveal_strlit("c");
            }
        },
        13 => {
            out.append("d");
            proof {
                reveal_strlit("d");
            }
        },
        14 => {
            out.append("e");
            proof {
                reveal_strlit("e");
            }
        },
        _ => {
            out.append("f");
            proof {
                reveal_strlit("f");
            }
        },
    }
}

/// Appends a key's escaped text.
fn escape_into(out: &mut String, s: &String)
    ensures
        final(out)@ == old(out)@ + escape_str(s@),
{
    let str_ref = s.as_str();
    let n = str_ref.unicode_len();
    let mut i: usize = 0;
    while i < n
        invariant
            i <= n,
            n == s@.len(),
            str_ref@ == s@,
            out@ == old(out)@ + escape_str(s@.take(i as int)),
        decreases n - i,
    {
        let ghost pre = s@.take(i as int);
        let ghost nxt = s@.take(i + 1int);
        assert(nxt.drop_last() =~= pre);
        assert(nxt.last() == s@[i as int]);
        let c = str_ref.get_char(i);
        if c == '"' {
            out.append("\\\"");
            proof {
                reveal_strlit("\\\"");
            }
        } else if c == '\\' {
            out.append("\\\\");
            proof {
                reveal_strlit("\\\\");
            }
        } else if c == '\u{8}' {
            out.append("\\b");
            proof {
                reveal_strlit("\\b");
            }
        } else if c == '\t' {
            out.append("\\t");
            proof {
                reveal_strlit("\\t");
            }
        } else if c == '\n' {
            out.append("\\n");
            proof {
                reveal_strlit("\\n");
            }
        } else if c == '\u{c}' {
            out.append("\\f");
            proof {
                reveal_strlit("\\f");
            }
        } else if c == '\r' {
            out.append("\\r");
            proof {
                reveal_strlit("\\r");
            }
        } else if (c as u32) < 32 {
            out.append("\\u00");
            proof {
                reveal_strlit("\\u00");
            }
            let v = c as u32;
            append_hex_digit(out, (v / 16) as u8);
            append_hex_digit(out, (v % 16) as u8);
        } else {
            let piece = str_ref.substring_char(i, i + 1);
            assert(piece@ =~= seq![s@[i as int]]);
            out.append(piece);
        }
        assert(out@ =~= old(out)@ + escape_str(nxt));
        i += 1;
    }
    assert(s@.take(n as int) =~= s@);
}

/// Serializes a tree into JSON text.
pub fn serialize(t: &Tree) -> (r: String)
    ensures
        r@ == ser_spec(*t),
    decreases *t,
{
    match t {
        Tree::Scalar(s) => s.clone(),
        Tree::Array(es) => {
            let mut out: String = "[".to_owned();
            proof {
                reveal_strlit("[");
            }
            let mut i: usize = 0;
            while i < es.len()
                invariant
                    i <= es@.len(),
                    t == Tree::Array(*es),
                    out@ == seq!['['] + ser_items_spec(*t, i as nat),
                decreases es@.len() - i,
            {
                if i > 0 {
                    out.append(",");
                    proof {
                        reveal_strlit(",");
                    }
                }
                proof {
                    assert(decreases_to!(*t => (*t)->Array_0));
                    assert((*t)->Array_0 == *es);
                    assert(decreases_to!(*es => es@[i as int]));
                }
                let piece = serialize(&es[i]);
                out.append(piece.as_str());
                assert(out@ =~= seq!['['] + ser_items_spec(*t, (i + 1) as nat));
                i += 1;
            }
            out.append("]");
            proof {
                reveal_strlit("]");
            }
            assert(out@ =~= ser_spec(*t));
            out
        },
        Tree::Object(fs) => {
            let mut out: String = "{".to_owned();
            proof {
                reveal_strlit("{");
            }
            let mut i: usize = 0;
            while i < fs.len()
                invariant
                    i <= fs@.len(),
                    t == Tree::Object(*fs),
                    out@ == seq!['{'] + ser_fields_spec(*t, i as nat),
                decreases fs@.len() - i,
            {
                if i > 0 {
                    out.append(",");
                    proof {
                        reveal_strlit(",");
                    }
                }
                out.append("\"");
                escape_into(&mut out, &fs[i].0);
                out.append("\"");
                out.append(":");
                proof {
                    reveal_strlit("\"");
                    reveal_strlit(":");
                }
                proof {
                    assert(decreases_to!(*t => (*t)->Object_0));
                    assert((*t)->Object_0 == *fs);
                    assert(decreases_to!(*fs => fs@[i as int]));
                    assert(decreases_to!(fs@[i as int] => fs@[i as int].1));
                }
                let piece = serialize(&fs[i].1);
                out.append(piece.as_str());
                assert(out@ =~= seq!['{'] + ser_fields_spec(*t, (i + 1) as nat));
                i += 1;
            }
            out.append("}");
            proof {
                reveal_strlit("}");
            }
            assert(out@ =~= ser_spec(*t));
            out
        },
    }
}

} // verus!
