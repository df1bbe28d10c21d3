//! Procedures: the parts of calling one that do not evaluate.

use vstd::prelude::*;

verus! {

/// The name of the variadic argument that `name` declares: a formal argument
/// written `*rest` collects the remaining actual arguments in a list bound to `rest`.
/// A name that does not start with `*`, or is `*` alone, declares none.
pub open spec fn variadic_name(name: Seq<char>) -> Option<Seq<char>> {
    if name.len() > 1 && name[0] == '*' {
        Some(name.subrange(1, name.len() as int))
    } else {
        None
    }
}

/// Extracts the name of variadic arguments from `name` (see [`variadic_name`]).
pub fn get_variadic_args_name(name: &str) -> (r: Option<&str>)
    ensures
        match variadic_name(name@) {
            Some(v) => r is Some && r->0@ == v,
            None => r is None,
        },
{
    let n = name.unicode_len();
    if n > 1 && name.get_char(0) == '*' {
        Some(name.substring_char(1, n))
    } else {
        None
    }
}

} // verus!

verus! {

/// How a formal argument is bound when a procedure is called.
#[derive(Debug)]
pub enum ArgBinding {
    /// `name` takes the actual argument at `index`.
    One { name: String, index: usize },
    /// `name` takes the list of the actual arguments from `from` on.
    Rest { name: String, from: usize },
}

/// The mathematical value of an [`ArgBinding`].
pub enum BindingView {
    One(Seq<char>, int),
    Rest(Seq<char>, int),
}

impl View for ArgBinding {
    type V = BindingView;

    open spec fn view(&self) -> BindingView {
        match self {
            ArgBinding::One { name, index } => BindingView::One(name@, *index as int),
            ArgBinding::Rest { name, from } => BindingView::Rest(name@, *from as int),
        }
    }
}

/// A wrong number of actual arguments.
#[derive(Clone, Copy, Debug, PartialEq, Eq, Structural)]
pub enum ArityError {
    TooFew,
    TooMany,
}

/// The bindings of the formal arguments from the `i`-th on, when `n` actual
/// arguments are given, and the arity error found after them, if any. Formal
/// arguments take the actual ones in order; a variadic one takes all that are left
/// and ends the formal arguments; a formal argument with no actual one left is an
/// error, and so are actual arguments left over.
pub open spec fn plan_from(formals: Seq<Seq<char>>, n: int, i: int) -> (
    Seq<BindingView>,
    Option<ArityError>,
)
    decreases formals.len() - i,
{
    if i < 0 || i >= formals.len() {
        (Seq::empty(), if n > i {
            Some(ArityError::TooMany)
        } else {
            None
        })
    } else {
        match variadic_name(formals[i]) {
            Some(v) => (seq![BindingView::Rest(v, i)], None),
            None => if i >= n {
                (Seq::empty(), Some(ArityError::TooFew))
            } else {
                let (rest, err) = plan_from(formals, n, i + 1);
                (seq![BindingView::One(formals[i], i)] + rest, err)
            },
        }
    }
}

/// Plans how the formal arguments `formals` take `n` actual arguments (see
/// [`plan_from`]). The caller binds in the order of the bindings, evaluating each
/// actual argument as a closure does, and then reports the arity error if there is one:
/// "`name`: too few args" or "`name`: too many args".
pub fn bind_args(formals: &Vec<String>, n: usize) -> (r: (Vec<ArgBinding>, Option<ArityError>))
    ensures
        r.0@.map_values(|b: ArgBinding| b@) == plan_from(
            formals@.map_values(|f: String| f@),
            n as int,
            0,
        ).0,
        r.1 == plan_from(formals@.map_values(|f: String| f@), n as int, 0).1,
{
    let ghost fs = formals@.map_values(|f: String| f@);
    let mut bindings: Vec<ArgBinding> = Vec::new();
    let mut i: usize = 0;
    loop
        invariant
            i <= formals@.len(),
            fs == formals@.map_values(|f: String| f@),
            i <= n,
            bindings@.len() == i,
            ({
                let (rest, err) = plan_from(fs, n as int, i as int);
                plan_from(fs, n as int, 0) == (bindings@.map_values(|b: ArgBinding| b@) + rest, err)
            }),
        decreases formals@.len() - i,
    {
        if i >= formals.len() {
            let err = if n > i {
                Some(ArityError::TooMany)
            } else {
                None
            };
            assert(bindings@.map_values(|b: ArgBinding| b@) + Seq::<BindingView>::empty() =~= bindings@.map_values(|b: ArgBinding| b@));
            return (bindings, err);
        }
        let formal = &formals[i];
        match get_variadic_args_name(formal.as_str()) {
            Some(v) => {
                let ghost before = bindings@.map_values(|b: ArgBinding| b@);
                bindings.push(ArgBinding::Rest { name: v.to_owned(), from: i });
                assert(bindings@.map_values(|b: ArgBinding| b@) =~= before + seq![BindingView::Rest(v@, i as int)]);
                return (bindings, None);
            },
            None => {
                if i >= n {
                    assert(bindings@.map_values(|b: ArgBinding| b@) + Seq::<BindingView>::empty() =~= bindings@.map_values(|b: ArgBinding| b@));
                    return (bindings, Some(ArityError::TooFew));
                }
                let ghost before = bindings@.map_values(|b: ArgBinding| b@);
                bindings.push(ArgBinding::One { name: formal.clone(), index: i });
                proof {
                    let (rest, err) = plan_from(fs, n as int, i + 1);
                    assert(bindings@.map_values(|b: ArgBinding| b@) =~= before.push(BindingView::One(fs[i as int], i as int)));
                    assert(before + (seq![BindingView::One(fs[i as int], i as int)] + rest) =~= before.push(BindingView::One(fs[i as int], i as int)) + rest);
                }
                i = i + 1;
            },
        }
    }
}

} // verus!

verus! {

/// The bindings of the formal arguments from the `j`-th on, each to its own actual
/// argument, up to the `i`-th, which is variadic.
proof fn lemma_plan_up_to_variadic(formals: Seq<Seq<char>>, n: int, i: int, j: int)
    requires
        0 <= j <= i < formals.len(),
        formals[i].len() > 1,
        formals[i][0] == '*',
        forall|k: int| 0 <= k < i ==> !(formals[k].len() > 1 && #[trigger] formals[k][0] == '*'),
        n >= i,
    ensures
        plan_from(formals, n, j) == (
            Seq::new((i - j) as nat, |k: int| BindingView::One(formals[j + k], j + k)).push(
                BindingView::Rest(formals[i].subrange(1, formals[i].len() as int), i),
            ),
            None::<ArityError>,
        ),
    decreases i - j,
{
    let rest_binding = BindingView::Rest(formals[i].subrange(1, formals[i].len() as int), i);
    if j == i {
        assert(Seq::new(0nat, |k: int| BindingView::One(formals[j + k], j + k)).push(rest_binding) =~= seq![
            rest_binding,
        ]);
    } else {
        assert(!(formals[j].len() > 1 && formals[j][0] == '*'));
        lemma_plan_up_to_variadic(formals, n, i, j + 1);
        assert(seq![BindingView::One(formals[j], j)] + Seq::new(
            (i - (j + 1)) as nat,
            |k: int| BindingView::One(formals[j + 1 + k], j + 1 + k),
        ).push(rest_binding) =~= Seq::new((i - j) as nat, |k: int| BindingView::One(formals[j + k], j + k)).push(
            rest_binding,
        ));
    }
}

/// A variadic formal argument takes all the actual arguments left, possibly none:
/// when the `i`-th formal argument is the first variadic one, `*v`, and at least `i`
/// actual arguments are given, binding reports no arity error, binds each formal
/// argument before it to the actual argument at its own position, and binds `v` to
/// the actual arguments from the `i`-th on (none of them when exactly `i` are given).
pub proof fn lemma_variadic_takes_rest(formals: Seq<Seq<char>>, n: int, i: int)
    requires
        0 <= i < formals.len(),
        formals[i].len() > 1,
        formals[i][0] == '*',
        forall|k: int| 0 <= k < i ==> !(formals[k].len() > 1 && #[trigger] formals[k][0] == '*'),
        n >= i,
    ensures
        plan_from(formals, n, 0).1 is None,
        plan_from(formals, n, 0).0.len() == i + 1,
        forall|k: int| 0 <= k < i ==> #[trigger] plan_from(formals, n, 0).0[k] == BindingView::One(formals[k], k),
        plan_from(formals, n, 0).0[i] == BindingView::Rest(formals[i].subrange(1, formals[i].len() as int), i),
{
    lemma_plan_up_to_variadic(formals, n, i, 0);
}

} // verus!
