use vstd::prelude::*;

verus! {

/// The options and paths given on the command line.
#[derive(Debug, Clone)]
pub struct RmxArgs {
    pub paths: Vec<String>,
    /// -r, -R, --recursive
    pub recursive: bool,
    /// -f, --force
    pub force: bool,
    /// -i, --interactive
    pub interactive: bool,
    /// -v, --verbose
    pub verbose: bool,
    /// -d, --dir: remove empty directories
    pub dir: bool,
}

/// The command line as mathematical values.
pub struct ArgsView {
    pub paths: Seq<Seq<char>>,
    pub recursive: bool,
    pub force: bool,
    pub interactive: bool,
    pub verbose: bool,
    pub dir: bool,
}

impl View for RmxArgs {
    type V = ArgsView;

    open spec fn view(&self) -> ArgsView {
        ArgsView {
            paths: self.paths@.map_values(|p: String| p@),
            recursive: self.recursive,
            force: self.force,
            interactive: self.interactive,
            verbose: self.verbose,
            dir: self.dir,
        }
    }
}

impl ArgsView {
    pub open spec fn initial() -> ArgsView {
        ArgsView {
            paths: Seq::empty(),
            recursive: false,
            force: false,
            interactive: false,
            verbose: false,
            dir: false,
        }
    }
}

impl Default for RmxArgs {
    fn default() -> (r: RmxArgs)
        ensures
            r@ == ArgsView::initial(),
    {
        let r = RmxArgs {
            paths: Vec::new(),
            recursive: false,
            force: false,
            interactive: false,
            verbose: false,
            dir: false,
        };
        assert(r@.paths =~= Seq::<Seq<char>>::empty());
        r
    }
}

/// Why a command line was not accepted.
#[derive(Debug, Clone, Copy, PartialEq, Eq, Structural)]
pub enum ArgsError {
    /// Nothing was given after the program's name.
    Missing,
    /// A short option letter that means nothing.
    UnknownFlag(char),
    /// Options were given, but no path.
    NoPaths,
}

/// The effect of the letter `c` of a group of short options.
pub open spec fn short_flag(v: ArgsView, c: char) -> Option<ArgsView> {
    if c == 'r' || c == 'R' {
        Some(ArgsView { recursive: true, ..v })
    } else if c == 'f' {
        Some(ArgsView { force: true, ..v })
    } else if c == 'i' {
        Some(ArgsView { interactive: true, ..v })
    } else if c == 'v' {
        Some(ArgsView { verbose: true, ..v })
    } else if c == 'd' {
        Some(ArgsView { dir: true, ..v })
    } else {
        None
    }
}

/// The effect of the letters of `letters`, in order; the first unknown letter
/// stops it.
pub open spec fn short_flags(v: ArgsView, letters: Seq<char>) -> Result<ArgsView, char>
    decreases letters.len(),
{
    if letters.len() == 0 {
        Ok(v)
    } else {
        match short_flags(v, letters.drop_last()) {
            Ok(w) => match short_flag(w, letters.last()) {
                Some(x) => Ok(x),
                None => Err(letters.last()),
            },
            Err(c) => Err(c),
        }
    }
}

/// A group of short options: one dash, then letters.
pub open spec fn is_short_group(a: Seq<char>) -> bool {
    a.len() > 0 && a[0] == '-' && !(a.len() > 1 && a[1] == '-')
}

/// The effect of one argument.
pub open spec fn apply_arg(v: ArgsView, a: Seq<char>) -> Result<ArgsView, char> {
    if a == "--recursive"@ {
        Ok(ArgsView { recursive: true, ..v })
    } else if a == "--force"@ {
        Ok(ArgsView { force: true, ..v })
    } else if a == "--interactive"@ {
        Ok(ArgsView { interactive: true, ..v })
    } else if a == "--verbose"@ {
        Ok(ArgsView { verbose: true, ..v })
    } else if a == "--dir"@ {
        Ok(ArgsView { dir: true, ..v })
    } else if is_short_group(a) {
        short_flags(v, a.subrange(1, a.len() as int))
    } else {
        Ok(ArgsView { paths: v.paths.push(a), ..v })
    }
}

/// The effect of the arguments, in order; the first unknown letter stops it.
pub open spec fn apply_args(args: Seq<Seq<char>>) -> Result<ArgsView, char>
    decreases args.len(),
{
    if args.len() == 0 {
        Ok(ArgsView::initial())
    } else {
        match apply_args(args.drop_last()) {
            Ok(v) => apply_arg(v, args.last()),
            Err(c) => Err(c),
        }
    }
}

pub open spec fn strings_view(v: Seq<String>) -> Seq<Seq<char>> {
    v.map_values(|s: String| s@)
}

/// Whether two texts are the same.
pub(crate) fn same_text(a: &str, b: &str) -> (r: bool)
    ensures
        r == (a@ == b@),
{
    let n: usize = a.unicode_len();
    if n != b.unicode_len() {
        return false;
    }
    let mut i: usize = 0;
    while i < n
        invariant
            n == a@.len(),
            n == b@.len(),
            i <= n,
            a@.subrange(0, i as int) == b@.subrange(0, i as int),
        decreases n - i,
    {
        if a.get_char(i) != b.get_char(i) {
            return false;
        }
        assert(a@.subrange(0, i + 1) =~= a@.subrange(0, i as int).push(a@[i as int]));
        assert(b@.subrange(0, i + 1) =~= b@.subrange(0, i as int).push(b@[i as int]));
        i += 1;
    }
    assert(a@ =~= a@.subrange(0, n as int));
    assert(b@ =~= b@.subrange(0, n as int));
    true
}

impl RmxArgs {
    fn apply_short(&mut self, c: char) -> (ok: bool)
        ensures
            ok == (short_flag(old(self)@, c) is Some),
            ok ==> final(self)@ == short_flag(old(self)@, c)->Some_0,
            !ok ==> final(self)@ == old(self)@,
    {
        if c == 'r' || c == 'R' {
            self.recursive = true;
        } else if c == 'f' {
            self.force = true;
        } else if c == 'i' {
            self.interactive = true;
        } else if c == 'v' {
            self.verbose = true;
        } else if c == 'd' {
            self.dir = true;
        } else {
            return false;
        }
        true
    }

    /// Takes in the letters of a group of short options, after its dash.
    fn apply_letters(&mut self, s: &str) -> (r: Result<(), char>)
        requires
            s@.len() >= 1,
        ensures
            match short_flags(old(self)@, s@.subrange(1, s@.len() as int)) {
                Ok(v) => r is Ok && final(self)@ == v,
                Err(c) => r == Err::<(), char>(c),
            },
    {
        let n: usize = s.unicode_len();
        let ghost letters = s@.subrange(1, n as int);
        let ghost start = self@;
        let mut j: usize = 1;
        while j < n
            invariant
                n == s@.len(),
                1 <= j <= n,
                letters == s@.subrange(1, n as int),
                start == old(self)@,
                short_flags(start, letters.subrange(0, j - 1)) == Ok::<ArgsView, char>(self@),
            decreases n - j,
        {
            let c = s.get_char(j);
            assert(letters.subrange(0, j as int).drop_last() =~= letters.subrange(0, j - 1));
            assert(letters.subrange(0, j as int).last() == c);
            if !self.apply_short(c) {
                assert(short_flags(start, letters.subrange(0, j as int)) == Err::<ArgsView, char>(
                    c,
                ));
                proof {
                    lemma_short_flags_stop(start, letters, j as int);
                }
                return Err(c);
            }
            j += 1;
        }
        assert(letters.subrange(0, n - 1) =~= letters);
        Ok(())
    }

    /// Takes in one argument.
    fn apply(&mut self, a: &String) -> (r: Result<(), char>)
        ensures
            match apply_arg(old(self)@, a@) {
                Ok(v) => r is Ok && final(self)@ == v,
                Err(c) => r == Err::<(), char>(c),
            },
    {
        let s = a.as_str();
        if same_text(s, "--recursive") {
            self.recursive = true;
        } else if same_text(s, "--force") {
            self.force = true;
        } else if same_text(s, "--interactive") {
            self.interactive = true;
        } else if same_text(s, "--verbose") {
            self.verbose = true;
        } else if same_text(s, "--dir") {
            self.dir = true;
        } else {
            let n: usize = s.unicode_len();
            if n > 0 && s.get_char(0) == '-' && !(n > 1 && s.get_char(1) == '-') {
                return self.apply_letters(s);
            } else {
                let ghost old_paths = self@.paths;
                self.paths.push(a.clone());
                assert(self@.paths =~= old_paths.push(a@));
            }
        }
        Ok(())
    }
}

/// Once a letter is unknown, the letters after it change nothing.
proof fn lemma_short_flags_stop(v: ArgsView, letters: Seq<char>, j: int)
    requires
        1 <= j <= letters.len(),
        short_flags(v, letters.subrange(0, j)) is Err,
    ensures
        short_flags(v, letters) == short_flags(v, letters.subrange(0, j)),
    decreases letters.len(),
{
    if j < letters.len() {
        assert(letters.drop_last().subrange(0, j) =~= letters.subrange(0, j));
        lemma_short_flags_stop(v, letters.drop_last(), j);
    } else {
        assert(letters.subrange(0, j) =~= letters);
    }
}

/// Reads the options and paths of a command line whose first item is the
/// program's name. Each argument is, in order: a long option; a dash and
/// option letters; or a path.
pub fn parse_flags(args: &Vec<String>) -> (r: Result<RmxArgs, ArgsError>)
    ensures
        args@.len() < 2 ==> r == Err::<RmxArgs, ArgsError>(ArgsError::Missing),
        args@.len() >= 2 ==> match apply_args(strings_view(args@).subrange(1, args@.len() as int)) {
            Err(c) => r == Err::<RmxArgs, ArgsError>(ArgsError::UnknownFlag(c)),
            Ok(v) => if v.paths.len() == 0 {
                r == Err::<RmxArgs, ArgsError>(ArgsError::NoPaths)
            } else {
                r matches Ok(a) && a@ == v
            },
        },
{
    if args.len() < 2 {
        return Err(ArgsError::Missing);
    }
    let ghost given = strings_view(args@);
    let mut parsed = RmxArgs::default();
    let mut i: usize = 1;
    while i < args.len()
        invariant
            given == strings_view(args@),
            1 <= i <= args@.len(),
            apply_args(given.subrange(1, i as int)) == Ok::<ArgsView, char>(parsed@),
        decreases args@.len() - i,
    {
        let ghost part = given.subrange(1, i + 1);
        assert(part.drop_last() =~= given.subrange(1, i as int));
        assert(part.last() == args@[i as int]@);
        match parsed.apply(&args[i]) {
            Ok(()) => {},
            Err(c) => {
                proof {
                    assert(given.subrange(1, args@.len() as int).subrange(0, i as int) =~= part);
                    assert(apply_args(part) == Err::<ArgsView, char>(c));
                    lemma_args_stop(given.subrange(1, args@.len() as int), i as int);
                }
                return Err(ArgsError::UnknownFlag(c));
            },
        }
        i += 1;
    }
    if parsed.paths.len() == 0 {
        return Err(ArgsError::NoPaths);
    }
    Ok(parsed)
}

/// Once an argument holds an unknown letter, the arguments after it change
/// nothing.
proof fn lemma_args_stop(args: Seq<Seq<char>>, j: int)
    requires
        1 <= j <= args.len(),
        apply_args(args.subrange(0, j)) is Err,
    ensures
        apply_args(args) == apply_args(args.subrange(0, j)),
    decreases args.len(),
{
    if j < args.len() {
        assert(args.drop_last().subrange(0, j) =~= args.subrange(0, j));
        lemma_args_stop(args.drop_last(), j);
    } else {
        assert(args.subrange(0, j) =~= args);
    }
}

} // verus!
