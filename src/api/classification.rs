use vstd::prelude::*;
use vstd::utf8::encode_utf8;

verus! {

/// Why the remote classification failed.
#[derive(Debug, PartialEq, Eq, Structural)]
pub enum ClassificationError {
    ClassificationFailed,
}

impl ClassificationError {
    /// The message shown for the error.
    pub fn message(&self) -> (r: String)
        ensures
            r@ == "Classification failed."@,
    {
        match self {
            ClassificationError::ClassificationFailed => "Classification failed.".to_owned(),
        }
    }
}

/// What the classification service reports about a repository.
#[derive(Debug, Clone)]
pub struct Classification {
    pub name: String,
    pub tldr: String,
    pub usage: String,
    pub version: Option<String>,
    pub license: Option<String>,
}

/// The selector's answer: the paths it prefers, possibly none.
#[derive(Debug, Clone)]
pub struct Selection {
    pub files: Vec<String>,
}

/// The standard base64 text (with padding) of the UTF-8 bytes of `s`.
pub uninterp spec fn base64_of(s: Seq<char>) -> Seq<char>;

/// `s` with leading and trailing whitespace removed.
pub uninterp spec fn trimmed(s: Seq<char>) -> Seq<char>;

/// Relies on base64's `encode`, which uses the standard alphabet with
/// padding: the text depends on the bytes alone, four characters for each
/// started group of three bytes.
#[verifier::external_body]
pub(crate) fn encode_base64(s: &str) -> (r: String)
    ensures
        r@ == base64_of(s@),
        r@.len() == 4 * ((encode_utf8(s@).len() + 2) / 3),
{
    base64::encode(s)
}

/// Relies on `str::trim`: the text with leading and trailing whitespace
/// removed.
#[verifier::external_body]
fn trim_text(s: &str) -> (r: &str)
    ensures
        r@ == trimmed(s@),
{
    s.trim()
}

fn copy_name(name: &Option<String>) -> (r: Option<String>)
    ensures
        r == *name,
{
    match name {
        Some(n) => Some(n.clone()),
        None => None,
    }
}

/// How the classification request carries one (name, content) file: the
/// name as it is, the content trimmed and base64-encoded.
pub open spec fn encoded_file(f: (Option<String>, String)) -> (Option<String>, Seq<char>) {
    (f.0, base64_of(trimmed(f.1@)))
}

/// The files of a classification request, encoded for sending, in order.
pub fn encode_files(files: &Vec<(Option<String>, String)>) -> (r: Vec<(Option<String>, String)>)
    ensures
        r.len() == files.len(),
        forall|i: int|
            0 <= i < files.len() ==> (r[i].0, r[i].1@) == encoded_file(#[trigger] files[i]),
{
    let mut r: Vec<(Option<String>, String)> = Vec::new();
    let mut i: usize = 0;
    while i < files.len()
        invariant
            i <= files.len(),
            r.len() == i,
            forall|j: int| 0 <= j < i ==> (r[j].0, r[j].1@) == encoded_file(#[trigger] files[j]),
        decreases files.len() - i,
    {
        let content = encode_base64(trim_text(files[i].1.as_str()));
        r.push((copy_name(&files[i].0), content));
        i += 1;
    }
    r
}

/// All values when every read succeeded, else the first failure in order.
pub open spec fn first_failure_or_all<T, E>(s: Seq<Result<T, E>>) -> Result<Seq<T>, E>
    decreases s.len(),
{
    if s.len() == 0 {
        Ok(Seq::empty())
    } else {
        match s[0] {
            Err(e) => Err(e),
            Ok(v) => match first_failure_or_all(s.drop_first()) {
                Ok(rest) => Ok(seq![v] + rest),
                Err(e) => Err(e),
            },
        }
    }
}

/// Gathers the per-file reads of a classification request: one failed read
/// fails the request, with the first failure in file order.
pub fn gather_contents<T, E>(reads: Vec<Result<T, E>>) -> (r: Result<Vec<T>, E>)
    ensures
        match first_failure_or_all(reads@) {
            Ok(all) => r matches Ok(v) && v@ == all,
            Err(e) => r matches Err(e2) && e2 == e,
        },
{
    let ghost all_reads = reads@;
    let mut rest = reads;
    let mut out: Vec<T> = Vec::new();
    while rest.len() > 0
        invariant
            all_reads == reads@,
            all_reads.len() == out.len() + rest.len(),
            out@ == all_reads.take(out.len() as int).map_values(|x: Result<T, E>| x->Ok_0),
            forall|j: int| 0 <= j < out.len() ==> all_reads[j] is Ok,
            rest@ == all_reads.skip(out.len() as int),
        decreases rest.len(),
    {
        let ghost k = out.len() as int;
        let ghost before = rest@;
        let item = rest.remove(0);
        proof {
            assert(before[0] == all_reads[k]);
            assert(item == all_reads[k]);
        }
        match item {
            Ok(v) => {
                out.push(v);
                proof {
                    assert(all_reads.take(k + 1) =~= all_reads.take(k).push(all_reads[k]));
                    assert(out@ =~= all_reads.take(k + 1).map_values(|x: Result<T, E>| x->Ok_0));
                    assert(rest@ =~= all_reads.skip(k + 1));
                }
            },
            Err(e) => {
                proof {
                    lemma_failure_after_successes(all_reads, k);
                }
                return Err(e);
            },
        }
    }
    proof {
        assert(all_reads.take(out.len() as int) =~= all_reads);
        lemma_all_successes(all_reads);
    }
    Ok(out)
}

proof fn lemma_failure_after_successes<T, E>(s: Seq<Result<T, E>>, k: int)
    requires
        0 <= k < s.len(),
        s[k] is Err,
        forall|j: int| 0 <= j < k ==> s[j] is Ok,
    ensures
        first_failure_or_all(s) == Err::<Seq<T>, E>(s[k]->Err_0),
    decreases k,
{
    if k > 0 {
        assert(s.drop_first()[k - 1] == s[k]);
        assert forall|j: int| 0 <= j < k - 1 implies s.drop_first()[j] is Ok by {
            assert(s.drop_first()[j] == s[j + 1]);
        }
        lemma_failure_after_successes(s.drop_first(), k - 1);
    }
}

proof fn lemma_all_successes<T, E>(s: Seq<Result<T, E>>)
    requires
        forall|j: int| 0 <= j < s.len() ==> s[j] is Ok,
    ensures
        first_failure_or_all(s) == Ok::<Seq<T>, E>(s.map_values(|x: Result<T, E>| x->Ok_0)),
    decreases s.len(),
{
    if s.len() == 0 {
        assert(s.map_values(|x: Result<T, E>| x->Ok_0) =~= Seq::<T>::empty());
    } else {
        assert forall|j: int| 0 <= j < s.drop_first().len() implies s.drop_first()[j] is Ok by {
            assert(s.drop_first()[j] == s[j + 1]);
        }
        lemma_all_successes(s.drop_first());
        assert(s.map_values(|x: Result<T, E>| x->Ok_0) =~= seq![s[0]->Ok_0] + s.drop_first().map_values(
            |x: Result<T, E>| x->Ok_0,
        ));
    }
}

} // verus!
