//! Statements and the evaluator: folding parsed statements into one tree.

use crate::path::joined;
use crate::path::Path;
use crate::value::check_ok;
use crate::value::mismatch_message;
use crate::value::obj_view;
use crate::value::value_view;
use crate::value::SchemaType;
use crate::value::Value;
use crate::value::ValueV;
use vstd::prelude::*;

verus! {

/// Failures of evaluation.
#[derive(Debug)]
pub enum Error {
    /// A value does not satisfy its declared schema type; carries the full
    /// message.
    MismatchedType(String),
    /// A path component already holding a value was used as a namespace, or
    /// the other way round; carries the dotted key.
    ObjectOverride(String),
}

impl Error {
    /// The human-readable rendering of the failure.
    pub open spec fn message_spec(&self) -> Seq<char> {
        match self {
            Error::MismatchedType(s) => s@,
            Error::ObjectOverride(k) => "an object cannot be reassigned to a key that already holds a value ("@
                + k@ + ")"@,
        }
    }

    /// Renders the failure as text.
    pub fn message(&self) -> (r: String)
        ensures
            r@ == self.message_spec(),
    {
        match self {
            Error::MismatchedType(s) => {
                let mut m = String::new();
                m.append(s.as_str());
                m
            },
            Error::ObjectOverride(k) => {
                let mut m = String::from_str(
                    "an object cannot be reassigned to a key that already holds a value (",
                );
                m.append(k.as_str());
                m.append(")");
                m
            },
        }
    }
}

/// The first index in `es` whose key is `k`, or -1.
pub open spec fn find_key(es: Seq<(Seq<char>, ValueV)>, k: Seq<char>) -> int
    decreases es.len(),
{
    if es.len() == 0 {
        -1
    } else if es[0].0 == k {
        0
    } else {
        let r = find_key(es.drop_first(), k);
        if r < 0 {
            -1
        } else {
            r + 1
        }
    }
}

/// What `find_key` finds: the first entry under that key, or nothing.
pub proof fn lemma_find_key(es: Seq<(Seq<char>, ValueV)>, k: Seq<char>)
    ensures
        ({
            let r = find_key(es, k);
            &&& (r == -1 ==> forall|j: int| 0 <= j < es.len() ==> (#[trigger] es[j]).0 != k)
            &&& (r != -1 ==> 0 <= r < es.len() && es[r].0 == k && (forall|j: int|
                0 <= j < r ==> (#[trigger] es[j]).0 != k))
        }),
    decreases es.len(),
{
    if es.len() > 0 && es[0].0 != k {
        lemma_find_key(es.drop_first(), k);
        let r = find_key(es.drop_first(), k);
        if r >= 0 {
            assert(es.drop_first()[r] == es[r + 1]);
            assert(forall|j: int| 1 <= j < r + 1 ==> (#[trigger] es[j]) == es.drop_first()[j - 1]);
        } else {
            assert(forall|j: int|
                1 <= j < es.len() ==> (#[trigger] es[j]) == es.drop_first()[j - 1]);
        }
    }
}

/// Assigns `v` at `path[pos..]` below an object with entries `es`: nested
/// objects are created along the way, the last fragment is inserted or
/// overwritten, and a leaf standing anywhere on the way is a structural
/// conflict (`None`).
pub open spec fn insert_entries(
    es: Seq<(Seq<char>, ValueV)>,
    path: Seq<Seq<char>>,
    pos: int,
    v: ValueV,
) -> Option<Seq<(Seq<char>, ValueV)>>
    decreases path.len() - pos,
    when 0 <= pos < path.len()
{
    let k = path[pos];
    let idx = find_key(es, k);
    if pos == path.len() - 1 {
        if idx < 0 {
            Some(es.push((k, v)))
        } else {
            Some(es.update(idx, (k, v)))
        }
    } else {
        let child = if idx < 0 {
            ValueV::Object(Seq::empty())
        } else {
            es[idx].1
        };
        match child {
            ValueV::Object(ces) => match insert_entries(ces, path, pos + 1, v) {
                Some(ces2) => if idx < 0 {
                    Some(es.push((k, ValueV::Object(ces2))))
                } else {
                    Some(es.update(idx, (k, ValueV::Object(ces2))))
                },
                None => None,
            },
            _ => None,
        }
    }
}

/// The declared type of `path`, under the binding added last.
pub open spec fn schema_lookup(
    schema: Seq<(Seq<Seq<char>>, SchemaType)>,
    path: Seq<Seq<char>>,
) -> Option<SchemaType>
    decreases schema.len(),
{
    if schema.len() == 0 {
        None
    } else if schema.last().0 == path {
        Some(schema.last().1)
    } else {
        schema_lookup(schema.drop_last(), path)
    }
}

/// The full message of a schema mismatch at `key`.
pub open spec fn mismatch_full(key: Seq<char>, v: ValueV, st: SchemaType) -> Seq<char> {
    "`"@ + key + "` is "@ + mismatch_message(v, st)
}

/// How evaluation ends: the result tree's entries, a schema mismatch with
/// its full message, or a structural conflict with its dotted key.
pub enum EvalOut {
    Done(Seq<(Seq<char>, ValueV)>),
    Mismatch(Seq<char>),
    Conflict(Seq<char>),
}

/// Folds the statements in order into the accumulated entries: each value
/// is checked against its declared type where the schema has one, then
/// assigned at its path.
pub open spec fn eval_spec(
    stmts: Seq<(Seq<Seq<char>>, ValueV)>,
    schema: Option<Seq<(Seq<Seq<char>>, SchemaType)>>,
    acc: Seq<(Seq<char>, ValueV)>,
) -> EvalOut
    decreases stmts.len(),
{
    if stmts.len() == 0 {
        EvalOut::Done(acc)
    } else {
        let p = stmts[0].0;
        let v = stmts[0].1;
        let key = joined(p);
        let checked: Option<Seq<char>> = match schema {
            Some(sch) => match schema_lookup(sch, p) {
                Some(st) => if check_ok(v, st) {
                    None
                } else {
                    Some(mismatch_full(key, v, st))
                },
                None => None,
            },
            None => None,
        };
        match checked {
            Some(m) => EvalOut::Mismatch(m),
            None => {
                if p.len() == 0 {
                    eval_spec(stmts.drop_first(), schema, acc)
                } else {
                    match insert_entries(acc, p, 0, v) {
                        Some(acc2) => eval_spec(stmts.drop_first(), schema, acc2),
                        None => EvalOut::Conflict(key),
                    }
                }
            },
        }
    }
}

/// One parsed directive: a dotted path and the value assigned to it.
#[derive(Debug, PartialEq)]
pub struct Statement<T = Value>(Path, T);

impl<T> Statement<T> {
    /// The fragments of the statement's path.
    pub closed spec fn path_view(&self) -> Seq<Seq<char>> {
        self.0@
    }

    /// The statement's payload.
    pub closed spec fn payload(&self) -> T {
        self.1
    }

    /// A statement assigning `value` at `path`.
    pub fn new(path: Path, value: T) -> (r: Self)
        ensures
            r.path_view() == path@,
            r.payload() == value,
    {
        Statement(path, value)
    }
}

impl Statement<SchemaType> {
    /// The statement's path and declared type, as a pair.
    pub fn to_tuple(self) -> (r: (Path, SchemaType))
        ensures
            r.0@ == self.path_view(),
            r.1 == self.payload(),
    {
        (self.0, self.1)
    }
}

/// A partial mapping from paths to declared types; a binding added later
/// shadows an earlier one for the same path.
#[derive(Debug)]
pub struct Schema(Vec<(Path, SchemaType)>);

impl View for Schema {
    type V = Seq<(Seq<Seq<char>>, SchemaType)>;

    closed spec fn view(&self) -> Seq<(Seq<Seq<char>>, SchemaType)> {
        Seq::new(
            self.0@.len(),
            |i: int|
                if 0 <= i < self.0@.len() {
                    (self.0@[i].0@, self.0@[i].1)
                } else {
                    arbitrary()
                },
        )
    }
}

impl Schema {
    /// An empty schema.
    pub fn new() -> (r: Self)
        ensures
            r@ =~= Seq::<(Seq<Seq<char>>, SchemaType)>::empty(),
    {
        Schema(Vec::new())
    }

    /// Adds one binding; it shadows earlier bindings of the same path.
    pub fn insert(&mut self, path: Path, ty: SchemaType)
        ensures
            final(self)@ =~= old(self)@.push((path@, ty)),
    {
        self.0.push((path, ty));
    }

    /// Collects parsed schema statements into a schema, later ones
    /// shadowing earlier ones.
    pub fn from_statements(stmts: Vec<Statement<SchemaType>>) -> (r: Self)
        ensures
            r@ =~= stmts@.map_values(
                |st: Statement<SchemaType>| (st.path_view(), st.payload()),
            ),
    {
        let mut sch = Schema::new();
        let mut rest = stmts;
        let ghost all = rest@;
        let ghost mut t: int = 0;
        while rest.len() > 0
            invariant
                0 <= t <= all.len(),
                rest@ == all.skip(t),
                sch@ =~= all.take(t).map_values(
                    |st: Statement<SchemaType>| (st.path_view(), st.payload()),
                ),
            decreases rest@.len(),
        {
            let st = rest.remove(0);
            proof {
                assert(st == all[t]);
                assert(all.skip(t).skip(1) =~= all.skip(t + 1));
            }
            let (p, ty) = st.to_tuple();
            sch.insert(p, ty);
            proof {
                assert(all.take(t + 1).drop_last() =~= all.take(t));
                assert(all.take(t + 1).last() == all[t]);
                assert(all.take(t + 1).map_values(
                    |st: Statement<SchemaType>| (st.path_view(), st.payload()),
                ) =~= all.take(t).map_values(
                    |st: Statement<SchemaType>| (st.path_view(), st.payload()),
                ).push((all[t].path_view(), all[t].payload())));
                t = t + 1;
            }
        }
        proof {
            assert(all.take(all.len() as int) =~= all);
        }
        sch
    }

    /// Looks the path up, under the binding added last.
    fn lookup(&self, path: &Path) -> (r: Option<SchemaType>)
        ensures
            r == schema_lookup(self@, path@),
    {
        let n = self.0.len();
        let mut i: usize = n;
        proof {
            assert(self@.take(n as int) =~= self@);
        }
        while i > 0
            invariant
                n == self.0@.len(),
                0 <= i <= n,
                schema_lookup(self@, path@) == schema_lookup(self@.take(i as int), path@),
            decreases i,
        {
            i = i - 1;
            if &self.0[i].0 == path {
                proof {
                    assert(self@.take(i + 1).last() == self@[i as int]);
                    assert(self@[i as int].0 == path@);
                }
                return Some(self.0[i].1);
            }
            proof {
                assert(self@.take(i + 1).last() == self@[i as int]);
                assert(self@.take(i + 1).drop_last() =~= self@.take(i as int));
            }
        }
        proof {
            assert(self@.take(0) =~= Seq::<(Seq<Seq<char>>, SchemaType)>::empty());
        }
        None
    }
}

/// Assigns `v` at `path[pos..]` below the entries `es`, mirroring
/// `insert_entries`; `Err` marks a structural conflict.
fn insert_value(es: Vec<(String, Value)>, path: &Path, pos: usize, v: Value) -> (r: Result<
    Vec<(String, Value)>,
    (),
>)
    requires
        pos < path@.len(),
    ensures
        match insert_entries(obj_view(es@), path@, pos as int, v@) {
            Some(es2) => r matches Ok(out) && obj_view(out@) =~~= es2,
            None => r is Err,
        },
    decreases path@.len() - pos,
{
    let ghost es0 = obj_view(es@);
    let ghost k = path@[pos as int];
    let ghost idx_spec = find_key(es0, k);
    proof {
        lemma_find_key(es0, k);
    }
    let mut es = es;
    let key = path.fragment(pos);
    let n = es.len();
    let mut idx: usize = n;
    let mut i: usize = 0;
    while i < n && idx == n
        invariant
            n == es@.len(),
            es0 == obj_view(es@),
            k == path@[pos as int],
            0 <= i <= n,
            idx == n || (idx == i && 0 <= idx && idx < n && es0[idx as int].0 == k),
            forall|j: int| 0 <= j < i ==> (#[trigger] es0[j]).0 != k,
            key@ == k,
        decreases n - i + (if idx == n {
            1int
        } else {
            0int
        }),
    {
        proof {
            assert(es0[i as int] == (es@[i as int].0@, value_view(es@[i as int].1)));
        }
        if es[i].0 == *key {
            idx = i;
        } else {
            i = i + 1;
        }
    }
    proof {
        if idx < n {
            assert(es0[idx as int].0 == k);
            assert(forall|j: int| 0 <= j < idx ==> (#[trigger] es0[j]).0 != k);
            assert(idx_spec == idx) by {
                if idx_spec == -1 {
                    assert((es0[idx as int]).0 != k);
                }
            }
        } else {
            assert(forall|j: int| 0 <= j < n ==> (#[trigger] es0[j]).0 != k);
            if idx_spec != -1 {
                assert((es0[idx_spec]).0 != k);
            }
        }
    }
    if pos == path.len() - 1 {
        if idx == n {
            let kk = key.clone();
            let ghost before = es@;
            es.push((kk, v));
            proof {
                crate::value::lemma_obj_view_push(before, (kk, v));
                assert(obj_view(es@) =~~= es0.push((k, v@)));
            }
            Ok(es)
        } else {
            let ghost whole = es@;
            let old_pair = es.remove(idx);
            let kk = key.clone();
            es.insert(idx, (kk, v));
            proof {
                assert(es@ =~= whole.update(idx as int, (kk, v)));
                crate::value::lemma_obj_view_update(whole, idx as int, (kk, v));
                assert(obj_view(es@) =~~= es0.update(idx as int, (k, v@)));
            }
            Ok(es)
        }
    } else {
        if idx == n {
            let child: Vec<(String, Value)> = Vec::new();
            proof {
                assert(obj_view(child@) =~= Seq::<(Seq<char>, ValueV)>::empty());
            }
            let sub = insert_value(child, path, pos + 1, v);
            match sub {
                Ok(ces) => {
                    let kk = key.clone();
                    let ghost before = es@;
                    es.push((kk, Value::Object(ces)));
                    proof {
                        crate::value::lemma_obj_view_push(before, (kk, Value::Object(ces)));
                        match insert_entries(
                            Seq::<(Seq<char>, ValueV)>::empty(),
                            path@,
                            pos + 1,
                            v@,
                        ) {
                            Some(ces2) => {
                                crate::value::lemma_obj_view(ces);
                                assert(value_view(Value::Object(ces)) =~~= ValueV::Object(ces2));
                                assert(obj_view(es@) =~~= es0.push((k, ValueV::Object(ces2))));
                            },
                            None => {},
                        }
                    }
                    Ok(es)
                },
                Err(e) => Err(e),
            }
        } else {
            let ghost whole = es@;
            let pair = es.remove(idx);
            match pair.1 {
                Value::Object(ces) => {
                    proof {
                        crate::value::lemma_obj_view(ces);
                        assert(es0[idx as int] == (whole[idx as int].0@, value_view(
                            whole[idx as int].1,
                        )));
                        assert(es0[idx as int].1 == ValueV::Object(obj_view(ces@)));
                    }
                    let ghost cesv = obj_view(ces@);
                    let sub = insert_value(ces, path, pos + 1, v);
                    match sub {
                        Ok(ces2) => {
                            let np = (pair.0, Value::Object(ces2));
                            es.insert(idx, np);
                            proof {
                                assert(es@ =~= whole.update(idx as int, np));
                                crate::value::lemma_obj_view_update(whole, idx as int, np);
                                assert(np.0@ == k);
                                match insert_entries(cesv, path@, pos + 1, v@) {
                                    Some(cv2) => {
                                        crate::value::lemma_obj_view(ces2);
                                        assert(value_view(Value::Object(ces2)) =~~= ValueV::Object(
                                            cv2,
                                        ));
                                        assert(obj_view(es@) =~~= es0.update(
                                            idx as int,
                                            (k, ValueV::Object(cv2)),
                                        ));
                                    },
                                    None => {},
                                }
                            }
                            Ok(es)
                        },
                        Err(e) => Err(e),
                    }
                },
                _ => Err(()),
            }
        }
    }
}

impl Statement<Value> {
    /// Folds the statements, in order, into one result object: each value is
    /// checked against its declared type where the schema has one, then
    /// assigned at its dotted path; a later assignment of exactly the same
    /// path overwrites, and a leaf used as a namespace (or the other way
    /// round) is a fatal conflict.
    pub fn evaluate(statements: Vec<Statement<Value>>, schema: Option<Schema>) -> (r: Result<
        Value,
        Error,
    >)
        ensures
            ({
                let stv = statements@.map_values(
                    |st: Statement<Value>| (st.path_view(), st.payload()@),
                );
                let schv = match schema {
                    Some(sch) => Some(sch@),
                    None => None::<Seq<(Seq<Seq<char>>, SchemaType)>>,
                };
                match eval_spec(stv, schv, Seq::empty()) {
                    EvalOut::Done(es) => r matches Ok(val) && val@ == ValueV::Object(es),
                    EvalOut::Mismatch(m) => r matches Err(e) && (e matches Error::MismatchedType(
                        ms,
                    ) && ms@ == m),
                    EvalOut::Conflict(kk) => r matches Err(e) && (e matches Error::ObjectOverride(
                        ks,
                    ) && ks@ == kk),
                }
            }),
    {
        let ghost stv = statements@.map_values(
            |st: Statement<Value>| (st.path_view(), st.payload()@),
        );
        let ghost schv = match &schema {
            Some(sch) => Some(sch@),
            None => None::<Seq<(Seq<Seq<char>>, SchemaType)>>,
        };
        let mut result: Vec<(String, Value)> = Vec::new();
        let mut rest = statements;
        proof {
            assert(obj_view(result@) =~= Seq::<(Seq<char>, ValueV)>::empty());
        }
        while rest.len() > 0
            invariant
                schv == (match schema {
                    Some(sch) => Some(sch@),
                    None => None::<Seq<(Seq<Seq<char>>, SchemaType)>>,
                }),
                stv == statements@.map_values(
                    |st: Statement<Value>| (st.path_view(), st.payload()@),
                ),
                eval_spec(
                    rest@.map_values(|st: Statement<Value>| (st.path_view(), st.payload()@)),
                    schv,
                    obj_view(result@),
                ) == eval_spec(stv, schv, Seq::empty()),
            decreases rest@.len(),
        {
            let ghost cur = rest@.map_values(
                |st: Statement<Value>| (st.path_view(), st.payload()@),
            );
            let st = rest.remove(0);
            proof {
                assert(cur[0] == (st.path_view(), st.payload()@));
                assert(rest@.map_values(|st: Statement<Value>| (st.path_view(), st.payload()@))
                    =~= cur.drop_first());
            }
            let Statement(path, value) = st;
            let key = path.to_string();
            match &schema {
                Some(sch) => {
                    let looked = sch.lookup(&path);
                    match looked {
                        Some(ty) => {
                            let ck = value.check(&ty);
                            match ck {
                                Ok(_) => {},
                                Err(msg) => {
                                    let mut m = String::from_str("`");
                                    m.append(key.as_str());
                                    m.append("` is ");
                                    m.append(msg.as_str());
                                    proof {
                                        assert(m@ =~= mismatch_full(joined(path@), value@, ty));
                                        assert(eval_spec(cur, schv, obj_view(result@))
                                            == EvalOut::Mismatch(
                                            mismatch_full(joined(path@), value@, ty),
                                        ));
                                    }
                                    return Err(Error::MismatchedType(m));
                                },
                            }
                        },
                        None => {},
                    }
                },
                None => {},
            }
            if path.len() > 0 {
                let ghost acc0 = obj_view(result@);
                let ins = insert_value(result, &path, 0, value);
                match ins {
                    Ok(out) => {
                        result = out;
                        proof {
                            assert(insert_entries(acc0, path@, 0, value@) matches Some(es2)
                                && obj_view(result@) == es2);
                        }
                    },
                    Err(_) => {
                        proof {
                            assert(insert_entries(acc0, path@, 0, value@) is None);
                            assert(eval_spec(cur, schv, acc0) == EvalOut::Conflict(joined(path@)));
                        }
                        return Err(Error::ObjectOverride(key));
                    },
                }
            }
        }
        proof {
            assert(rest@.map_values(|st: Statement<Value>| (st.path_view(), st.payload()@)).len()
                == 0);
            crate::value::lemma_obj_view(result);
        }
        Ok(Value::Object(result))
    }
}

} // verus!
