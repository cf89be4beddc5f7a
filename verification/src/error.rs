use vstd::prelude::*;
use vstd::string::StringExecFns;

verus! {

/// What an error says: a message, and under it the errors that it sums up.
pub struct ErrorTree {
    pub message: Seq<char>,
    pub causes: Seq<ErrorTree>,
}

/// The text of a list of errors, each on a line of its own that starts with
/// `prefix`; the errors under an error are indented by two more spaces.
pub open spec fn render_all(causes: Seq<ErrorTree>, prefix: Seq<char>) -> Seq<char>
    decreases causes, 0nat,
{
    if causes.len() == 0 {
        Seq::empty()
    } else {
        render_all(causes.drop_last(), prefix) + seq!['\n'] + prefix + render(
            causes.last(),
            prefix + seq![' ', ' '],
        )
    }
}

/// The text of an error whose own line has been started: its message, then the
/// errors under it, each on a line that starts with `prefix`.
pub open spec fn render(tree: ErrorTree, prefix: Seq<char>) -> Seq<char>
    decreases tree, 1nat,
{
    tree.message + render_all(tree.causes, prefix)
}

/// An error: a message, with the errors that it sums up under it.
pub struct Error {
    message: String,
    causes: ErrorGroup,
}

/// A list of errors that were found together.
pub struct ErrorGroup {
    errors: Vec<Error>,
}

impl View for Error {
    type V = ErrorTree;

    closed spec fn view(&self) -> ErrorTree
        decreases self,
    {
        ErrorTree { message: self.message@, causes: self.causes.view() }
    }
}

impl View for ErrorGroup {
    type V = Seq<ErrorTree>;

    closed spec fn view(&self) -> Seq<ErrorTree>
        decreases self,
    {
        Seq::new(
            self.errors@.len(),
            |i: int|
                if 0 <= i < self.errors.len() {
                    self.errors[i].view()
                } else {
                    arbitrary()
                },
        )
    }
}

impl Error {
    /// An error with a message and nothing under it.
    pub fn new(message: String) -> (e: Error)
        ensures
            e@ == (ErrorTree { message: message@, causes: Seq::empty() }),
    {
        let e = Error { message, causes: ErrorGroup { errors: Vec::new() } };
        assert(e.causes@ =~= Seq::empty());
        e
    }

    /// An error with a message given as a string slice.
    pub fn msg(message: &str) -> (e: Error)
        ensures
            e@ == (ErrorTree { message: message@, causes: Seq::empty() }),
    {
        Error::new(String::from_str(message))
    }

    /// Frames an error: the result says `ctx`, with `err` alone under it.
    pub fn context(ctx: String, err: Error) -> (e: Error)
        ensures
            e@ == (ErrorTree { message: ctx@, causes: seq![err@] }),
    {
        let mut errors: Vec<Error> = Vec::new();
        errors.push(err);
        let e = Error { message: ctx, causes: ErrorGroup { errors } };
        assert(e.causes@ =~= seq![err@]);
        e
    }

    /// The message of the error itself.
    pub fn message(&self) -> (s: &str)
        ensures
            s@ == self@.message,
    {
        self.message.as_str()
    }

    /// The errors under this one.
    pub fn causes(&self) -> (g: &ErrorGroup)
        ensures
            g@ == self@.causes,
    {
        &self.causes
    }

    /// Appends the text of the error to `out`.
    fn render_into(&self, out: &mut String, prefix: &str)
        ensures
            final(out)@ == old(out)@ + render(self@, prefix@),
        decreases self, 1nat,
    {
        out.append(self.message.as_str());
        self.causes.render_into(out, prefix);
    }

    /// The text of the error: its message, then each error under it on a line of
    /// its own, indented by two spaces for each level.
    pub fn to_string(&self) -> (s: String)
        ensures
            s@ == render(self@, seq![' ', ' ']),
    {
        let mut out = String::new();
        proof {
            reveal_strlit("  ");
        }
        assert("  "@ =~= seq![' ', ' ']);
        self.render_into(&mut out, "  ");
        assert(out@ =~= render(self@, seq![' ', ' ']));
        out
    }
}

impl ErrorGroup {
    /// A list without errors.
    pub fn new() -> (g: ErrorGroup)
        ensures
            g@ == Seq::<ErrorTree>::empty(),
    {
        let g = ErrorGroup { errors: Vec::new() };
        assert(g@ =~= Seq::<ErrorTree>::empty());
        g
    }

    /// The number of errors in the list.
    pub fn len(&self) -> (n: usize)
        ensures
            n == self@.len(),
    {
        self.errors.len()
    }

    /// Whether the list holds no error.
    pub fn is_empty(&self) -> (b: bool)
        ensures
            b == (self@.len() == 0),
    {
        self.errors.len() == 0
    }

    /// The error at position `i`, which must exist.
    pub fn get(&self, i: usize) -> (e: &Error)
        requires
            i < self@.len(),
        ensures
            e@ == self@[i as int],
    {
        &self.errors[i]
    }

    /// Appends one error.
    pub fn push_error(&mut self, err: Error)
        ensures
            final(self)@ == old(self)@.push(err@),
    {
        self.errors.push(err);
        assert(self@ =~= old(self)@.push(err@));
    }

    /// Appends the errors of another list, in their order.
    pub fn push_group(&mut self, other: ErrorGroup)
        ensures
            final(self)@ == old(self)@ + other@,
    {
        let mut other = other;
        let ghost added = other@;
        self.errors.append(&mut other.errors);
        assert(self@ =~= old(self)@ + added);
    }

    /// Appends the error of a failed result and hands on the value of a
    /// successful one.
    pub fn push_result<T>(&mut self, value: Result<T, Error>) -> (r: Option<T>)
        ensures
            match value {
                Ok(v) => r == Some(v) && final(self)@ == old(self)@,
                Err(e) => r.is_none() && final(self)@ == old(self)@.push(e@),
            },
    {
        match value {
            Ok(v) => Some(v),
            Err(e) => {
                self.push_error(e);
                None
            },
        }
    }

    /// Appends what `value` holds of errors, and hands back what is left of it.
    pub fn push<T: Pushable>(&mut self, value: T) -> (r: T::Output)
        ensures
            final(self)@ == old(self)@ + value.errors(),
            r == value.rest(),
    {
        value.push_to(self)
    }

    /// Sums the list up under a label: no error where the list is empty,
    /// otherwise one error that says `label` and holds the whole list, which is
    /// left empty.
    pub fn report(&mut self, label: String) -> (r: Result<(), Error>)
        ensures
            final(self)@ == Seq::<ErrorTree>::empty(),
            old(self)@.len() == 0 ==> r.is_ok(),
            old(self)@.len() > 0 ==> r.is_err() && r->Err_0@ == (ErrorTree {
                message: label@,
                causes: old(self)@,
            }),
    {
        if self.errors.len() == 0 {
            assert(self@ =~= Seq::<ErrorTree>::empty());
            Ok(())
        } else {
            let mut errors: Vec<Error> = Vec::new();
            errors.append(&mut self.errors);
            let causes = ErrorGroup { errors };
            assert(causes@ =~= old(self)@);
            assert(self@ =~= Seq::<ErrorTree>::empty());
            Err(Error { message: label, causes })
        }
    }

    /// Appends the text of every error of the list to `out`, each on a line of
    /// its own.
    fn render_into(&self, out: &mut String, prefix: &str)
        ensures
            final(out)@ == old(out)@ + render_all(self@, prefix@),
        decreases self, 0nat,
    {
        let mut deeper = String::from_str(prefix);
        deeper.append("  ");
        proof {
            reveal_strlit("  ");
            reveal_strlit("\n");
        }
        assert(deeper@ =~= prefix@ + seq![' ', ' ']);
        let mut i: usize = 0;
        assert(self@.subrange(0, 0) =~= Seq::<ErrorTree>::empty());
        while i < self.errors.len()
            invariant
                i <= self.errors@.len(),
                self@.len() == self.errors@.len(),
                deeper@ == prefix@ + seq![' ', ' '],
                "\n"@ == seq!['\n'],
                out@ == old(out)@ + render_all(self@.subrange(0, i as int), prefix@),
            decreases self.errors@.len() - i,
        {
            out.append("\n");
            out.append(prefix);
            self.errors[i].render_into(out, deeper.as_str());
            proof {
                let upto = self@.subrange(0, i + 1);
                assert(upto.drop_last() =~= self@.subrange(0, i as int));
                assert(upto.last() == self.errors@[i as int]@);
                assert(out@ =~= old(out)@ + render_all(upto, prefix@));
            }
            i += 1;
        }
        assert(self@.subrange(0, i as int) =~= self@);
    }
}

/// What can be put into an `ErrorGroup`: it holds some errors, which go into
/// the list, and what is left of it is handed back.
pub trait Pushable: Sized {
    /// What is left when the errors have been taken out.
    type Output;

    /// The errors that the value holds.
    spec fn errors(self) -> Seq<ErrorTree>;

    /// What is left of the value without its errors.
    spec fn rest(self) -> Self::Output;

    /// Appends the errors of the value to `group`.
    fn push_to(self, group: &mut ErrorGroup) -> (r: Self::Output)
        ensures
            final(group)@ == old(group)@ + self.errors(),
            r == self.rest(),
    ;
}

impl<T> Pushable for Result<T, Error> {
    type Output = Option<T>;

    open spec fn errors(self) -> Seq<ErrorTree> {
        match self {
            Ok(_) => Seq::empty(),
            Err(e) => seq![e@],
        }
    }

    open spec fn rest(self) -> Option<T> {
        match self {
            Ok(v) => Some(v),
            Err(_) => None,
        }
    }

    fn push_to(self, group: &mut ErrorGroup) -> (r: Option<T>) {
        match self {
            Ok(v) => {
                assert(group@ =~= old(group)@ + Seq::<ErrorTree>::empty());
                Some(v)
            },
            Err(e) => {
                group.push_error(e);
                assert(group@ =~= old(group)@ + seq![e@]);
                None
            },
        }
    }
}

impl Pushable for Error {
    type Output = ();

    open spec fn errors(self) -> Seq<ErrorTree> {
        seq![self@]
    }

    open spec fn rest(self) -> () {
        ()
    }

    fn push_to(self, group: &mut ErrorGroup) -> (r: ()) {
        group.push_error(self);
        assert(group@ =~= old(group)@ + seq![self@]);
    }
}

impl Pushable for ErrorGroup {
    type Output = ();

    open spec fn errors(self) -> Seq<ErrorTree> {
        self@
    }

    open spec fn rest(self) -> () {
        ()
    }

    fn push_to(self, group: &mut ErrorGroup) -> (r: ()) {
        group.push_group(self);
    }
}

} // verus!
