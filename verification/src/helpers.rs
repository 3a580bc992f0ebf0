//! The table of helpers, and choosing helpers from command-line arguments.
use vstd::prelude::*;
use vstd::string::*;

verus! {

/// The text helpers, in the order in which they are applied.
#[derive(Clone, Copy, PartialEq, Eq, Debug)]
pub enum Helper {
    /// `6px` → `0.375rem /* 6px */`.
    Px2rem,
    /// `#ff0000` → `oklch(62.8% 0.2577 29.23) /* #ff0000 */`.
    Hex2oklch,
    /// A `2026-06-11 at 01.50.48 PM` timestamp → the current local time.
    Now,
    /// `[a](b c.md)` → `[a](b%20c.md)`.
    Mdlink,
    /// Sorts the selected lines.
    Sort,
}

/// All helpers, in order.
pub open spec fn all_helpers() -> Seq<Helper> {
    seq![Helper::Px2rem, Helper::Hex2oklch, Helper::Now, Helper::Mdlink, Helper::Sort]
}

/// The name of a helper.
pub open spec fn name_of(h: Helper) -> Seq<char> {
    match h {
        Helper::Px2rem => "px2rem"@,
        Helper::Hex2oklch => "hex2oklch"@,
        Helper::Now => "now"@,
        Helper::Mdlink => "mdlink"@,
        Helper::Sort => "sort"@,
    }
}

/// The other names of a helper.
pub open spec fn aliases_of(h: Helper) -> Seq<Seq<char>> {
    match h {
        Helper::Px2rem => seq!["px"@, "rem"@],
        Helper::Hex2oklch => seq!["hex"@, "oklch"@],
        Helper::Now => seq!["date"@, "time"@],
        Helper::Mdlink => seq!["link"@, "links"@],
        Helper::Sort => seq!["asc"@],
    }
}

/// What a helper does, in one line.
pub open spec fn about_of(h: Helper) -> Seq<char> {
    match h {
        Helper::Px2rem => "padding: 16px 8px; -> padding: 1rem 0.5rem; /* 16px 8px */"@,
        Helper::Hex2oklch => "color: #fff; -> color: oklch(100% 0 0); /* #fff */"@,
        Helper::Now => "2026-06-11 at 01.50.48 PM -> current local time"@,
        Helper::Mdlink => "[a](b c.md) -> [a](b%20c.md)  (escape spaces in md link paths)"@,
        Helper::Sort => "sort the selected lines alphabetically (opt-in; visual mode)"@,
    }
}

/// Whether a bare `zh` (no arguments) runs the helper: the value helpers
/// compose over a line; `sort`, which reorders lines, must be named.
pub open spec fn runs_by_default(h: Helper) -> bool {
    h != Helper::Sort
}

/// Whether the helper sees markdown link targets `](…)`. Those belong to
/// `mdlink`; `sort` reorders whole lines and rewrites no character. The
/// others run only on the text between the targets.
pub open spec fn owns_link_targets(h: Helper) -> bool {
    h == Helper::Mdlink || h == Helper::Sort
}

impl Helper {
    /// The helper's name.
    pub fn name(&self) -> (r: &'static str)
        ensures
            r@ == name_of(*self),
    {
        match self {
            Helper::Px2rem => "px2rem",
            Helper::Hex2oklch => "hex2oklch",
            Helper::Now => "now",
            Helper::Mdlink => "mdlink",
            Helper::Sort => "sort",
        }
    }

    /// The helper's other names.
    pub fn aliases(&self) -> (r: Vec<&'static str>)
        ensures
            r@.map_values(|s: &'static str| s@) == aliases_of(*self),
    {
        let r: Vec<&'static str> = match self {
            Helper::Px2rem => vec!["px", "rem"],
            Helper::Hex2oklch => vec!["hex", "oklch"],
            Helper::Now => vec!["date", "time"],
            Helper::Mdlink => vec!["link", "links"],
            Helper::Sort => vec!["asc"],
        };
        assert(r@.map_values(|s: &'static str| s@) =~= aliases_of(*self));
        r
    }

    /// What the helper does, in one line.
    pub fn about(&self) -> (r: &'static str)
        ensures
            r@ == about_of(*self),
    {
        match self {
            Helper::Px2rem => "padding: 16px 8px; -> padding: 1rem 0.5rem; /* 16px 8px */",
            Helper::Hex2oklch => "color: #fff; -> color: oklch(100% 0 0); /* #fff */",
            Helper::Now => "2026-06-11 at 01.50.48 PM -> current local time",
            Helper::Mdlink => "[a](b c.md) -> [a](b%20c.md)  (escape spaces in md link paths)",
            Helper::Sort => "sort the selected lines alphabetically (opt-in; visual mode)",
        }
    }

    /// Whether a bare `zh` runs the helper.
    pub fn in_all(&self) -> (r: bool)
        ensures
            r == runs_by_default(*self),
    {
        match self {
            Helper::Sort => false,
            _ => true,
        }
    }

    /// Whether the helper sees markdown link targets.
    pub fn sees_link_targets(&self) -> (r: bool)
        ensures
            r == owns_link_targets(*self),
    {
        match self {
            Helper::Mdlink | Helper::Sort => true,
            _ => false,
        }
    }
}

/// All helpers, in the order in which they are applied.
pub fn helpers() -> (r: Vec<Helper>)
    ensures
        r@ == all_helpers(),
{
    let r = vec![Helper::Px2rem, Helper::Hex2oklch, Helper::Now, Helper::Mdlink, Helper::Sort];
    assert(r@ =~= all_helpers());
    r
}

/// `arg` names the helper, by its name or one of its aliases.
pub open spec fn names(h: Helper, arg: Seq<char>) -> bool {
    name_of(h) == arg || aliases_of(h).contains(arg)
}

/// The first helper, from index `k` of `all_helpers()` on, that `arg` names.
pub open spec fn first_named(arg: Seq<char>, k: int) -> Option<Helper>
    decreases 5 - k,
{
    if k < 0 || k >= 5 {
        None
    } else if names(all_helpers()[k], arg) {
        Some(all_helpers()[k])
    } else {
        first_named(arg, k + 1)
    }
}

/// The helpers that the arguments choose: without arguments every helper
/// that runs by default; otherwise, for each argument in turn, the first
/// helper it names (an argument that names none is skipped).
pub open spec fn chosen(args: Seq<Seq<char>>) -> Seq<Helper>
    decreases args.len(),
{
    if args.len() == 0 {
        all_helpers().filter(|h: Helper| runs_by_default(h))
    } else {
        chosen_each(args)
    }
}

/// For each argument in turn, the first helper it names.
pub open spec fn chosen_each(args: Seq<Seq<char>>) -> Seq<Helper>
    decreases args.len(),
{
    if args.len() == 0 {
        seq![]
    } else {
        let prev = chosen_each(args.drop_last());
        match first_named(args.last(), 0) {
            Some(h) => prev.push(h),
            None => prev,
        }
    }
}

/// A bare `zh` runs every helper but `sort`, which reorders lines and must be
/// named; they run in the order of the table.
pub proof fn law_bare_run_skips_sort()
    ensures
        chosen(seq![]) == seq![Helper::Px2rem, Helper::Hex2oklch, Helper::Now, Helper::Mdlink],
        !chosen(seq![]).contains(Helper::Sort),
{
    assert(all_helpers().filter(|h: Helper| runs_by_default(h)) =~= seq![
        Helper::Px2rem,
        Helper::Hex2oklch,
        Helper::Now,
        Helper::Mdlink,
    ]) by {
        reveal_with_fuel(Seq::filter, 6);
    }
    let c = chosen(seq![]);
    if c.contains(Helper::Sort) {
        let k = choose|k: int| 0 <= k < c.len() && c[k] == Helper::Sort;
        assert(false);
    }
}

/// The helper that a single argument names, by the names and aliases of the
/// table: `px2rem`/`px`/`rem`, `hex2oklch`/`hex`/`oklch`, `now`/`date`/`time`,
/// `mdlink`/`link`/`links`, `sort`/`asc`.
pub open spec fn named_by(arg: Seq<char>) -> Option<Helper> {
    if arg == "px2rem"@ || arg == "px"@ || arg == "rem"@ {
        Some(Helper::Px2rem)
    } else if arg == "hex2oklch"@ || arg == "hex"@ || arg == "oklch"@ {
        Some(Helper::Hex2oklch)
    } else if arg == "now"@ || arg == "date"@ || arg == "time"@ {
        Some(Helper::Now)
    } else if arg == "mdlink"@ || arg == "link"@ || arg == "links"@ {
        Some(Helper::Mdlink)
    } else if arg == "sort"@ || arg == "asc"@ {
        Some(Helper::Sort)
    } else {
        None
    }
}

/// One argument chooses the helper it names by name or alias, and nothing
/// when it names none: `zh link` runs `mdlink`, `zh asc` runs `sort`.
pub proof fn law_one_argument(arg: Seq<char>)
    ensures
        chosen(seq![arg]) == match named_by(arg) {
            Some(h) => seq![h],
            None => Seq::<Helper>::empty(),
        },
{
    reveal_strlit("px2rem");
    reveal_strlit("px");
    reveal_strlit("rem");
    reveal_strlit("hex2oklch");
    reveal_strlit("hex");
    reveal_strlit("oklch");
    reveal_strlit("now");
    reveal_strlit("date");
    reveal_strlit("time");
    reveal_strlit("mdlink");
    reveal_strlit("link");
    reveal_strlit("links");
    reveal_strlit("sort");
    reveal_strlit("asc");
    let args = seq![arg];
    assert(args.drop_last() =~= Seq::<Seq<char>>::empty());
    assert(args.last() == arg);
    assert(chosen(args) == chosen_each(args));
    reveal_with_fuel(first_named, 6);
    let all = all_helpers();
    assert(all[0] == Helper::Px2rem && all[1] == Helper::Hex2oklch && all[2] == Helper::Now);
    assert(all[3] == Helper::Mdlink && all[4] == Helper::Sort);
    assert(names(Helper::Px2rem, arg) <==> (arg == "px2rem"@ || arg == "px"@ || arg == "rem"@)) by {
        let al = aliases_of(Helper::Px2rem);
        if al.contains(arg) {
            let i = choose|i: int| 0 <= i < al.len() && al[i] == arg;
        }
        assert(al[0] == "px"@ && al[1] == "rem"@);
    }
    assert(names(Helper::Hex2oklch, arg) <==> (arg == "hex2oklch"@ || arg == "hex"@ || arg == "oklch"@)) by {
        let al = aliases_of(Helper::Hex2oklch);
        if al.contains(arg) {
            let i = choose|i: int| 0 <= i < al.len() && al[i] == arg;
        }
        assert(al[0] == "hex"@ && al[1] == "oklch"@);
    }
    assert(names(Helper::Now, arg) <==> (arg == "now"@ || arg == "date"@ || arg == "time"@)) by {
        let al = aliases_of(Helper::Now);
        if al.contains(arg) {
            let i = choose|i: int| 0 <= i < al.len() && al[i] == arg;
        }
        assert(al[0] == "date"@ && al[1] == "time"@);
    }
    assert(names(Helper::Mdlink, arg) <==> (arg == "mdlink"@ || arg == "link"@ || arg == "links"@)) by {
        let al = aliases_of(Helper::Mdlink);
        if al.contains(arg) {
            let i = choose|i: int| 0 <= i < al.len() && al[i] == arg;
        }
        assert(al[0] == "link"@ && al[1] == "links"@);
    }
    assert(names(Helper::Sort, arg) <==> (arg == "sort"@ || arg == "asc"@)) by {
        let al = aliases_of(Helper::Sort);
        if al.contains(arg) {
            let i = choose|i: int| 0 <= i < al.len() && al[i] == arg;
        }
        assert(al[0] == "asc"@);
    }
    let e = Seq::<Helper>::empty();
    assert(chosen_each(args.drop_last()) =~= e);
    match first_named(arg, 0) {
        Some(h) => {
            assert(chosen_each(args) =~= seq![h]);
        },
        None => {
            assert(chosen_each(args) =~= e);
        },
    }
}

fn same_text(a: &String, b: &str) -> (r: bool)
    ensures
        r == (a@ == b@),
{
    let t = String::from_str(b);
    *a == t
}

/// Whether `arg` names the helper `h`.
fn is_named(h: Helper, arg: &String) -> (r: bool)
    ensures
        r == names(h, arg@),
{
    if same_text(arg, h.name()) {
        return true;
    }
    let aliases = h.aliases();
    let ghost al = aliases@.map_values(|s: &'static str| s@);
    let mut k: usize = 0;
    while k < aliases.len()
        invariant
            k <= aliases@.len(),
            al == aliases@.map_values(|s: &'static str| s@),
            al == aliases_of(h),
            name_of(h) != arg@,
            forall|l: int| 0 <= l < k ==> al[l] != arg@,
        decreases aliases@.len() - k,
    {
        if same_text(arg, aliases[k]) {
            assert(al[k as int] == arg@);
            return true;
        }
        k = k + 1;
    }
    assert(!al.contains(arg@));
    false
}

/// The first helper that `arg` names, if any.
fn find_named(arg: &String) -> (r: Option<Helper>)
    ensures
        r == first_named(arg@, 0),
{
    let all = helpers();
    let mut k: usize = 0;
    while k < all.len()
        invariant
            k <= 5,
            all@ == all_helpers(),
            first_named(arg@, 0) == first_named(arg@, k as int),
        decreases 5 - k,
    {
        if is_named(all[k], arg) {
            return Some(all[k]);
        }
        k = k + 1;
    }
    None
}

/// Chooses the helpers to run from the command-line arguments (see
/// `chosen`).
pub fn select(args: &[String]) -> (r: Vec<Helper>)
    ensures
        r@ == chosen(args@.map_values(|a: String| a@)),
{
    let ghost av = args@.map_values(|a: String| a@);
    if args.len() == 0 {
        let r = vec![Helper::Px2rem, Helper::Hex2oklch, Helper::Now, Helper::Mdlink];
        proof {
            law_bare_run_skips_sort();
        }
        assert(r@ == chosen(av));
        return r;
    }
    let mut r: Vec<Helper> = Vec::new();
    let mut k: usize = 0;
    while k < args.len()
        invariant
            k <= args@.len(),
            av == args@.map_values(|a: String| a@),
            r@ == chosen_each(av.subrange(0, k as int)),
        decreases args@.len() - k,
    {
        assert(av.subrange(0, k + 1).drop_last() =~= av.subrange(0, k as int));
        match find_named(&args[k]) {
            Some(h) => r.push(h),
            None => {},
        }
        k = k + 1;
    }
    assert(av.subrange(0, av.len() as int) =~= av);
    r
}

/// Whether the arguments ask for the list of helpers (`--list`, `-l` or
/// `--help`, anywhere among them).
pub fn wants_list(args: &[String]) -> (r: bool)
    ensures
        r == exists|k: int|
            0 <= k < args@.len() && (#[trigger] args@[k]@ == "--list"@ || args@[k]@ == "-l"@
                || args@[k]@ == "--help"@),
{
    let mut k: usize = 0;
    while k < args.len()
        invariant
            k <= args@.len(),
            forall|l: int|
                0 <= l < k ==> !(#[trigger] args@[l]@ == "--list"@ || args@[l]@ == "-l"@ || args@[l]@
                    == "--help"@),
        decreases args@.len() - k,
    {
        if same_text(&args[k], "--list") || same_text(&args[k], "-l") || same_text(
            &args[k],
            "--help",
        ) {
            return true;
        }
        k = k + 1;
    }
    false
}

/// `s` followed by spaces up to `width` characters, as `{:<width}` formats
/// it.
pub open spec fn padded(s: Seq<char>, width: int) -> Seq<char> {
    if s.len() >= width {
        s
    } else {
        s + Seq::new((width - s.len()) as nat, |i: int| ' ')
    }
}

/// The texts joined with `sep` between each two.
pub open spec fn joined(parts: Seq<Seq<char>>, sep: Seq<char>) -> Seq<char>
    decreases parts.len(),
{
    if parts.len() == 0 {
        seq![]
    } else if parts.len() == 1 {
        parts[0]
    } else {
        joined(parts.drop_last(), sep) + sep + parts.last()
    }
}

/// The line that lists a helper: its name padded to 12 characters, its
/// aliases in parentheses, and what it does.
pub open spec fn list_entry_of(h: Helper) -> Seq<char> {
    padded(name_of(h), 12) + " ("@ + joined(aliases_of(h), ", "@) + ")  "@ + about_of(h)
}

/// The line that lists a helper (see `list_entry_of`).
pub fn list_entry(h: Helper) -> (r: String)
    ensures
        r@ == list_entry_of(h),
{
    let mut s = String::new();
    let name = h.name();
    s.append(name);
    let n = name.unicode_len();
    let mut k = n;
    while k < 12
        invariant
            n == name_of(h).len(),
            n <= k <= 12 || (k == n && n >= 12),
            s@ == name_of(h) + Seq::new((k - n) as nat, |i: int| ' '),
        decreases 12 - k,
    {
        s.append(" ");
        proof {
            reveal_strlit(" ");
        }
        assert(s@ =~= name_of(h) + Seq::new((k + 1 - n) as nat, |i: int| ' '));
        k = k + 1;
    }
    assert(s@ =~= padded(name_of(h), 12));
    s.append(" (");
    let aliases = h.aliases();
    let ghost al = aliases@.map_values(|x: &'static str| x@);
    let ghost before = s@;
    let mut j: usize = 0;
    while j < aliases.len()
        invariant
            j <= aliases@.len(),
            al == aliases@.map_values(|x: &'static str| x@),
            s@ == before + joined(al.subrange(0, j as int), ", "@),
        decreases aliases@.len() - j,
    {
        if j > 0 {
            s.append(", ");
        }
        s.append(aliases[j]);
        assert(al.subrange(0, j + 1).drop_last() =~= al.subrange(0, j as int));
        j = j + 1;
        assert(s@ =~= before + joined(al.subrange(0, j as int), ", "@));
    }
    assert(al.subrange(0, al.len() as int) =~= al);
    s.append(")  ");
    s.append(h.about());
    assert(s@ =~= list_entry_of(h));
    s
}

} // verus!
