//! What the development server starts besides serving: a bundler in watch mode, with a
//! dependency install first and a stylesheet watcher beside it, when they apply.
use vstd::prelude::*;

verus! {

/// The entry files that the bundler may start from, in order of preference.
pub fn entry_candidates() -> (r: Vec<&'static str>)
    ensures
        r@.len() == 4,
        r@[0]@ == "src/main.tsx"@,
        r@[1]@ == "src/main.jsx"@,
        r@[2]@ == "src/main.ts"@,
        r@[3]@ == "src/main.js"@,
{
    let mut v: Vec<&'static str> = Vec::new();
    v.push("src/main.tsx");
    v.push("src/main.jsx");
    v.push("src/main.ts");
    v.push("src/main.js");
    v
}

/// What to start for development.
#[derive(Debug, Clone, Copy, PartialEq, Eq, Structural)]
pub enum DevPlan {
    /// Run the bundler in watch mode from the entry candidate with this index; run a
    /// dependency install before it when `install`; watch the stylesheet when
    /// `tailwind`.
    Watch { install: bool, entry: usize, tailwind: bool },
    /// No bundler was found: serve files as they are.
    NoBundler,
    /// No entry file was found: serve files as they are.
    NoEntry,
}

/// The least index whose flag is set.
pub open spec fn first_set(flags: Seq<bool>) -> Option<int>
    decreases flags.len(),
{
    if flags.len() == 0 {
        None
    } else if flags[0] {
        Some(0)
    } else {
        match first_set(flags.drop_first()) {
            None => None,
            Some(i) => Some(i + 1),
        }
    }
}

/// What to start, given whether the bundler was found, which entry candidates exist,
/// whether `package.json` and `node_modules` exist, and whether `src/input.css` exists:
/// the first existing entry is bundled, dependencies are installed when there is a
/// `package.json` but no `node_modules`, and the stylesheet is watched when it exists.
pub fn dev_plan(
    bundler: bool,
    entries: &[bool],
    package_json: bool,
    node_modules: bool,
    input_css: bool,
) -> (r: DevPlan)
    ensures
        !bundler ==> r == DevPlan::NoBundler,
        bundler && first_set(entries@) is None ==> r == DevPlan::NoEntry,
        bundler && first_set(entries@) is Some ==> r == (DevPlan::Watch {
            install: package_json && !node_modules,
            entry: first_set(entries@)->0 as usize,
            tailwind: input_css,
        }),
{
    if !bundler {
        return DevPlan::NoBundler;
    }
    let mut i: usize = 0;
    while i < entries.len()
        invariant
            i <= entries@.len(),
            bundler,
            forall|j: int| 0 <= j < i ==> !entries@[j],
        decreases entries@.len() - i,
    {
        if entries[i] {
            proof {
                lemma_first_set(entries@, i as int);
            }
            return DevPlan::Watch {
                install: package_json && !node_modules,
                entry: i,
                tailwind: input_css,
            };
        }
        i = i + 1;
    }
    proof {
        lemma_first_set_none(entries@);
    }
    DevPlan::NoEntry
}

proof fn lemma_first_set(flags: Seq<bool>, i: int)
    requires
        0 <= i < flags.len(),
        flags[i],
        forall|j: int| 0 <= j < i ==> !flags[j],
    ensures
        first_set(flags) == Some(i),
    decreases i,
{
    if i > 0 {
        let rest = flags.drop_first();
        assert forall|j: int| 0 <= j < i - 1 implies !rest[j] by {
            assert(rest[j] == flags[j + 1]);
        }
        assert(rest[i - 1] == flags[i]);
        lemma_first_set(rest, i - 1);
    }
}

proof fn lemma_first_set_none(flags: Seq<bool>)
    requires
        forall|j: int| 0 <= j < flags.len() ==> !flags[j],
    ensures
        first_set(flags) is None,
    decreases flags.len(),
{
    if flags.len() > 0 {
        let rest = flags.drop_first();
        assert forall|j: int| 0 <= j < rest.len() implies !rest[j] by {
            assert(rest[j] == flags[j + 1]);
        }
        lemma_first_set_none(rest);
    }
}

} // verus!
