use sonion_protocol::dev::{dev_plan, entry_candidates, DevPlan};

#[test]
fn entry_candidates_in_order() {
    assert_eq!(
        entry_candidates(),
        vec!["src/main.tsx", "src/main.jsx", "src/main.ts", "src/main.js"]
    );
}

#[test]
fn plan_without_bundler() {
    assert_eq!(
        dev_plan(false, &[true, true, true, true], true, false, true),
        DevPlan::NoBundler
    );
}

#[test]
fn plan_without_entry() {
    assert_eq!(
        dev_plan(true, &[false, false, false, false], true, false, true),
        DevPlan::NoEntry
    );
}

#[test]
fn plan_picks_first_entry_and_extras() {
    assert_eq!(
        dev_plan(true, &[false, true, true, false], true, false, true),
        DevPlan::Watch {
            install: true,
            entry: 1,
            tailwind: true
        }
    );
    assert_eq!(
        dev_plan(true, &[false, false, false, true], true, true, false),
        DevPlan::Watch {
            install: false,
            entry: 3,
            tailwind: false
        }
    );
    assert_eq!(
        dev_plan(true, &[true, false, false, false], false, false, false),
        DevPlan::Watch {
            install: false,
            entry: 0,
            tailwind: false
        }
    );
}
