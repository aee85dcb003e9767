//! The user's constraints: for each package name, the constraints of which
//! a package of that name must meet at least one.

use vstd::prelude::*;
use vstd::string::StringExecFns;

use crate::conda::constraint_ok;
use crate::conda::matchspec_parses;
use crate::conda::names_channel;
use crate::conda::read_constraint;
use crate::conda::Constraint;

verus! {

/// The constraints on one package name, as the user wrote them.
pub struct UserMatchspec {
    pub package_name: String,
    pub specs: Vec<String>,
}

/// The constraints on one package name as plain values.
pub struct UserMatchspecView {
    pub package_name: Seq<char>,
    pub specs: Seq<Seq<char>>,
}

impl View for UserMatchspec {
    type V = UserMatchspecView;

    open spec fn view(&self) -> UserMatchspecView {
        UserMatchspecView {
            package_name: self.package_name@,
            specs: self.specs@.map_values(|spec: String| spec@),
        }
    }
}

/// The constraints on one package name, as the parser read them.
pub struct ReadMatchspec {
    pub package_name: String,
    pub specs: Vec<Constraint>,
}

impl View for ReadMatchspec {
    type V = UserMatchspecView;

    open spec fn view(&self) -> UserMatchspecView {
        UserMatchspecView {
            package_name: self.package_name@,
            specs: self.specs@.map_values(|spec: Constraint| spec@),
        }
    }
}

/// Whether the parser took each of `specs`, as far as their texts say:
/// each names a channel or is one that the parser takes.
pub open spec fn specs_read(specs: Seq<Seq<char>>) -> bool {
    forall|k: int|
        0 <= k < specs.len() ==> names_channel(#[trigger] specs[k]) || matchspec_parses(specs[k])
}

/// The user's constraints, each of them read.
pub struct UserMatchspecs {
    entries: Vec<ReadMatchspec>,
}

impl View for UserMatchspecs {
    type V = Seq<UserMatchspecView>;

    closed spec fn view(&self) -> Seq<UserMatchspecView> {
        self.entries@.map_values(|entry: ReadMatchspec| entry@)
    }
}

/// The constraint that the parser refused: the `spec`-th of the `entry`-th
/// package name, and the parser's error.
#[derive(Debug)]
pub struct UserMatchspecError {
    pub entry: usize,
    pub spec: usize,
    pub error: rattler_conda_types::ParseMatchSpecError,
}

impl UserMatchspecs {
    /// How many package names are constrained.
    pub fn len(&self) -> (res: usize)
        ensures
            res == self@.len(),
    {
        self.entries.len()
    }

    /// The constraints on the `i`-th package name.
    pub fn entry(&self, i: usize) -> (res: &ReadMatchspec)
        requires
            i < self@.len(),
        ensures
            res@ == self@[i as int],
    {
        &self.entries[i]
    }
}

/// Reads the constraints on one package name, in order, each once.
fn read_specs(specs: &Vec<String>) -> (res: Result<
    Vec<Constraint>,
    (usize, rattler_conda_types::ParseMatchSpecError),
>)
    ensures
        match res {
            Ok(read) => {
                &&& read@.map_values(|spec: Constraint| spec@) == specs@.map_values(
                    |spec: String| spec@,
                )
                &&& specs_read(specs@.map_values(|spec: String| spec@))
            },
            Err((k, _)) => {
                &&& k < specs.len()
                &&& !constraint_ok(specs[k as int]@)
                &&& specs_read(specs@.map_values(|spec: String| spec@).take(k as int))
            },
        },
{
    let ghost texts = specs@.map_values(|spec: String| spec@);
    let mut read: Vec<Constraint> = Vec::new();
    let mut k: usize = 0;
    while k < specs.len()
        invariant
            k <= specs.len(),
            read.len() == k,
            texts == specs@.map_values(|spec: String| spec@),
            read@.map_values(|spec: Constraint| spec@) == texts.take(k as int),
            specs_read(texts.take(k as int)),
        decreases specs.len() - k,
    {
        let ghost before = read@;
        assert(texts[k as int] == specs[k as int]@);
        match read_constraint(specs[k].as_str()) {
            Err(error) => {
                return Err((k, error));
            },
            Ok(constraint) => {
                read.push(constraint);
                proof {
                    let now = read@.map_values(|spec: Constraint| spec@);
                    let earlier = before.map_values(|spec: Constraint| spec@);
                    assert(read@ == before.push(constraint));
                    assert forall|j: int| 0 <= j < k + 1 implies #[trigger] now[j] == texts[j] by {
                        if j < k {
                            assert(read@[j] == before[j]);
                            assert(earlier[j] == texts.take(k as int)[j]);
                        }
                    }
                    assert(now =~= texts.take(k + 1));
                    assert forall|j: int| 0 <= j < k + 1 implies names_channel(
                        #[trigger] texts.take(k + 1)[j],
                    ) || matchspec_parses(texts.take(k + 1)[j]) by {
                        if j < k {
                            assert(texts.take(k as int)[j] == texts.take(k + 1)[j]);
                        }
                    }
                }
            },
        }
        k = k + 1;
    }
    proof {
        assert(texts.take(k as int) =~= texts);
    }
    Ok(read)
}

/// Reads the constraints that the user wrote, in the order given, each
/// once.
///
/// It fails on the first constraint that the parser refuses, and says which
/// that is, with the parser's own error. Whether the parser takes a
/// constraint that names a channel is for the parser to say; of the others
/// their texts decide.
pub fn get_user_matchspecs(matchspecs: Vec<UserMatchspec>) -> (res: Result<
    UserMatchspecs,
    UserMatchspecError,
>)
    ensures
        match res {
            Ok(read) => {
                &&& read@ == matchspecs@.map_values(|entry: UserMatchspec| entry@)
                &&& forall|i: int| 0 <= i < read@.len() ==> specs_read((#[trigger] read@[i]).specs)
            },
            Err(refused) => {
                &&& refused.entry < matchspecs.len()
                &&& refused.spec < matchspecs[refused.entry as int].specs.len()
                &&& !constraint_ok(matchspecs[refused.entry as int].specs[refused.spec as int]@)
                &&& forall|i: int|
                    0 <= i < refused.entry ==> specs_read((#[trigger] matchspecs[i])@.specs)
                &&& specs_read(matchspecs[refused.entry as int]@.specs.take(refused.spec as int))
            },
        },
{
    let ghost wanted = matchspecs@.map_values(|entry: UserMatchspec| entry@);
    let mut entries: Vec<ReadMatchspec> = Vec::new();
    let mut i: usize = 0;
    while i < matchspecs.len()
        invariant
            i <= matchspecs.len(),
            entries.len() == i,
            wanted == matchspecs@.map_values(|entry: UserMatchspec| entry@),
            entries@.map_values(|entry: ReadMatchspec| entry@) == wanted.take(i as int),
            forall|j: int| 0 <= j < i ==> specs_read((#[trigger] matchspecs[j])@.specs),
        decreases matchspecs.len() - i,
    {
        let ghost before = entries@;
        assert(wanted[i as int] == matchspecs[i as int]@);
        match read_specs(&matchspecs[i].specs) {
            Err((spec, error)) => {
                return Err(UserMatchspecError { entry: i, spec, error });
            },
            Ok(specs) => {
                let entry = ReadMatchspec {
                    package_name: String::from_str(matchspecs[i].package_name.as_str()),
                    specs,
                };
                assert(entry@ == matchspecs[i as int]@);
                entries.push(entry);
                proof {
                    let now = entries@.map_values(|entry: ReadMatchspec| entry@);
                    let earlier = before.map_values(|entry: ReadMatchspec| entry@);
                    assert(entries@ == before.push(entry));
                    assert forall|j: int| 0 <= j < i + 1 implies #[trigger] now[j] == wanted[j] by {
                        if j < i {
                            assert(entries@[j] == before[j]);
                            assert(earlier[j] == wanted.take(i as int)[j]);
                        }
                    }
                    assert(now =~= wanted.take(i + 1));
                }
            },
        }
        i = i + 1;
    }
    let read = UserMatchspecs { entries };
    proof {
        assert(wanted.take(i as int) =~= wanted);
        assert forall|j: int| 0 <= j < read@.len() implies specs_read(
            (#[trigger] read@[j]).specs,
        ) by {
            assert(read@[j] == matchspecs[j]@);
        }
    }
    Ok(read)
}

} // verus!
