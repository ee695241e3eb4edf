//! An error with the place it was met, what was being done, and named
//! values that say more about the circumstances.
use crate::assoc::{absent, distinct, lemma_push, lemma_update, to_map};
use crate::text::{append_decimal, decimal};
use vstd::prelude::*;
use vstd::string::StringExecFns;

verus! {

/// The named values as text: each as its name, a colon and its value,
/// with commas between them.
pub open spec fn joined(entries: Seq<(Seq<char>, Seq<char>)>) -> Seq<char>
    decreases entries.len(),
{
    if entries.len() == 0 {
        Seq::empty()
    } else if entries.len() == 1 {
        entries[0].0 + ": "@ + entries[0].1
    } else {
        joined(entries.drop_last()) + ", "@ + entries.last().0 + ": "@ + entries.last().1
    }
}

/// Whether `after` is `before` with the value of `name` noted: in the
/// place of the earlier value of that name, or behind the others where
/// there is none.
pub open spec fn noted(
    before: Seq<(Seq<char>, Seq<char>)>,
    after: Seq<(Seq<char>, Seq<char>)>,
    name: Seq<char>,
    value: Seq<char>,
) -> bool {
    &&& absent(before, name) ==> after == before.push((name, value))
    &&& forall|i: int|
        0 <= i < before.len() && (#[trigger] before[i]).0 == name ==> after == before.update(
            i,
            (name, value),
        )
}

/// An error as a mathematical value.
pub struct ErrorView {
    pub file: Seq<char>,
    pub line: u32,
    pub msg: Option<Seq<char>>,
    /// The named values, in the order in which they are shown.
    pub entries: Seq<(Seq<char>, Seq<char>)>,
    pub source: Seq<char>,
}

impl ErrorView {
    /// The named values, each name with its value.
    pub open spec fn context(self) -> Map<Seq<char>, Seq<char>> {
        to_map(self.entries)
    }

    /// The error as text: the place in square brackets, what was being
    /// done if that is known, the cause, and the named values in braces if
    /// there are any.
    pub open spec fn text(self) -> Seq<char> {
        "["@ + self.file + ":"@ + decimal(self.line as nat) + "]"@ + (match self.msg {
            Some(m) => " "@ + m + ": "@,
            None => " "@,
        }) + self.source + (if self.entries.len() == 0 {
            Seq::empty()
        } else {
            " { "@ + joined(self.entries) + " }"@
        })
    }
}

struct Inner {
    file: &'static str,
    line: u32,
    msg: Option<String>,
    context: Vec<(String, String)>,
    source: String,
}

/// The entries as mathematical values.
pub open spec fn entry_views(entries: Seq<(String, String)>) -> Seq<(Seq<char>, Seq<char>)> {
    entries.map_values(|e: (String, String)| (e.0@, e.1@))
}

impl Inner {
    spec fn view(&self) -> ErrorView {
        ErrorView {
            file: self.file@,
            line: self.line,
            msg: match self.msg {
                Some(m) => Some(m@),
                None => None,
            },
            entries: entry_views(self.context@),
            source: self.source@,
        }
    }

    spec fn wf(&self) -> bool {
        distinct(entry_views(self.context@))
    }

    fn new(file: &'static str, line: u32, msg: Option<String>, source: String) -> (r: Self)
        ensures
            r.wf(),
            r.view() == (ErrorView {
                file: file@,
                line,
                msg: match msg {
                    Some(m) => Some(m@),
                    None => None,
                },
                entries: Seq::empty(),
                source: source@,
            }),
    {
        let r = Self { file, line, msg, context: Vec::new(), source };
        assert(entry_views(r.context@) =~= Seq::empty());
        r
    }

    fn ctx(&mut self, name: String, value: String)
        requires
            old(self).wf(),
        ensures
            final(self).wf(),
            final(self).view().context() == old(self).view().context().insert(name@, value@),
            noted(old(self).view().entries, final(self).view().entries, name@, value@),
            final(self).view().file == old(self).view().file,
            final(self).view().line == old(self).view().line,
            final(self).view().msg == old(self).view().msg,
            final(self).view().source == old(self).view().source,
    {
        let ghost before = entry_views(self.context@);
        let mut i: usize = 0;
        while i < self.context.len()
            invariant
                i <= self.context@.len(),
                *self == *old(self),
                self.wf(),
                before == entry_views(self.context@),
                forall|k: int| 0 <= k < i ==> (#[trigger] before[k]).0 != name@,
            decreases self.context@.len() - i,
        {
            if self.context[i].0 == name {
                proof {
                    lemma_update(before, i as int, value@);
                }
                self.context.set(i, (name, value));
                assert(entry_views(self.context@) =~= before.update(
                    i as int,
                    (before[i as int].0, value@),
                ));
                return ;
            }
            i += 1;
        }
        proof {
            assert(absent(before, name@));
            lemma_push(before, name@, value@);
        }
        self.context.push((name, value));
        assert(entry_views(self.context@) =~= before.push((name@, value@)));
    }
}

/// An error, with where it was met and what is known of the circumstances.
pub struct Error(Box<Inner>);

impl View for Error {
    type V = ErrorView;

    closed spec fn view(&self) -> ErrorView {
        self.0.view()
    }
}

impl Error {
    /// The representation invariant: no name is held twice.
    pub closed spec fn wf(&self) -> bool {
        self.0.wf()
    }

    /// The error met at `line` of `file` while doing what `msg` says, if it
    /// says anything, and caused by what `source` says.
    pub fn new(file: &'static str, line: u32, msg: Option<String>, source: String) -> (r: Self)
        ensures
            r.wf(),
            r@ == (ErrorView {
                file: file@,
                line,
                msg: match msg {
                    Some(m) => Some(m@),
                    None => None,
                },
                entries: Seq::empty(),
                source: source@,
            }),
    {
        Self(Box::new(Inner::new(file, line, msg, source)))
    }

    /// Notes the value of `name`, in place of an earlier one if there is one.
    pub fn ctx(&mut self, name: String, value: String)
        requires
            old(self).wf(),
        ensures
            final(self).wf(),
            final(self)@.context() == old(self)@.context().insert(name@, value@),
            noted(old(self)@.entries, final(self)@.entries, name@, value@),
            final(self)@.file == old(self)@.file,
            final(self)@.line == old(self)@.line,
            final(self)@.msg == old(self)@.msg,
            final(self)@.source == old(self)@.source,
    {
        self.0.ctx(name, value);
    }

    /// The error as text.
    pub fn message(&self) -> (r: String)
        ensures
            r@ == self@.text(),
    {
        let inner = &*self.0;
        let mut out = String::from_str("[");
        out.append(inner.file);
        out.append(":");
        append_decimal(&mut out, inner.line as u64);
        out.append("]");
        match &inner.msg {
            Some(m) => {
                out.append(" ");
                out.append(m.as_str());
                out.append(": ");
            },
            None => {
                out.append(" ");
            },
        }
        out.append(inner.source.as_str());
        let ghost head = out@;
        let ghost entries = entry_views(inner.context@);
        if inner.context.len() > 0 {
            out.append(" { ");
            let mut i: usize = 0;
            while i < inner.context.len()
                invariant
                    i <= inner.context@.len(),
                    entries == entry_views(inner.context@),
                    out@ == head + " { "@ + joined(entries.take(i as int)),
                decreases inner.context@.len() - i,
            {
                if i > 0 {
                    out.append(", ");
                }
                out.append(inner.context[i].0.as_str());
                out.append(": ");
                out.append(inner.context[i].1.as_str());
                proof {
                    let next = entries.take(i + 1);
                    assert(next.drop_last() =~= entries.take(i as int));
                    assert(next.last() == entries[i as int]);
                    assert(next[0] == entries[0]);
                    assert(out@ =~= head + " { "@ + joined(next));
                }
                i += 1;
            }
            out.append(" }");
            proof {
                assert(entries.take(i as int) =~= entries);
                assert(out@ =~= self@.text());
            }
        } else {
            assert(out@ =~= self@.text());
        }
        out
    }
}

/// Results whose error can take named values.
pub trait WithContext: Sized {
    /// Whether the error in this result, if it is one, is well formed.
    spec fn ready(&self) -> bool;

    /// The same result, its error with the value of `name` noted.
    fn ctx(self, name: String, value: String) -> Self
        requires
            self.ready(),
    ;
}

impl<T> WithContext for Result<T, Error> {
    open spec fn ready(&self) -> bool {
        match self {
            Ok(_) => true,
            Err(e) => e.wf(),
        }
    }

    fn ctx(self, name: String, value: String) -> (r: Self)
        ensures
            r.ready(),
            match (self, r) {
                (Ok(a), Ok(b)) => a == b,
                (Err(e), Err(f)) => f@.context() == e@.context().insert(name@, value@) && noted(
                    e@.entries,
                    f@.entries,
                    name@,
                    value@,
                ) && f@.file == e@.file && f@.line == e@.line && f@.msg == e@.msg && f@.source
                    == e@.source,
                _ => false,
            },
    {
        match self {
            Ok(v) => Ok(v),
            Err(mut e) => {
                e.ctx(name, value);
                Err(e)
            },
        }
    }
}

} // verus!
