use shishua::xtask::{c_binding_step, run, str_eq, test_all_plan, CargoStep, Command, CpuFeatures};

#[test]
fn plan_without_c_bindings_runs_only_rust_checks() {
    let plan = test_all_plan("aarch64", false, CpuFeatures::default());

    assert_eq!(
        plan,
        vec![
            CargoStep::new(["test"]),
            CargoStep::new(["test", "--no-default-features"]),
            CargoStep::new(["test"]).with_env("RUSTFLAGS", "-C target-cpu=native"),
        ],
    );
}

#[test]
fn aarch64_c_binding_plan_runs_scalar_and_neon() {
    let plan = test_all_plan("aarch64", true, CpuFeatures::default());

    assert!(plan.contains(&c_binding_step("-O3 -DSHISHUA_TARGET=SHISHUA_TARGET_SCALAR")));
    assert!(plan.contains(&c_binding_step("-O3 -DSHISHUA_TARGET=SHISHUA_TARGET_NEON")));
}

#[test]
fn x86_64_c_binding_plan_runs_sse2_and_detected_avx2() {
    let plan = test_all_plan(
        "x86_64",
        true,
        CpuFeatures {
            sse2: true,
            avx2: true,
        },
    );

    assert!(plan.contains(&c_binding_step(
        "-O3 -DSHISHUA_TARGET=SHISHUA_TARGET_SSE2 -msse2 -mno-ssse3 -mno-avx -mno-avx2"
    )));
    assert!(plan.contains(&c_binding_step(
        "-O3 -DSHISHUA_TARGET=SHISHUA_TARGET_AVX2 -mavx2 -mtune=haswell"
    )));
}

#[test]
fn plan_with_c_bindings_puts_scalar_comparison_fourth() {
    for arch in ["x86_64", "amd64", "i686", "aarch64", "arm64", "riscv64"] {
        let plan = test_all_plan(arch, true, CpuFeatures { sse2: true, avx2: false });
        assert_eq!(plan[3], c_binding_step("-O3 -DSHISHUA_TARGET=SHISHUA_TARGET_SCALAR"));
        assert_eq!(plan[0], CargoStep::new(["test"]));
    }
}

#[test]
fn x86_64_plan_without_avx2_stops_at_sse2() {
    let plan = test_all_plan("amd64", true, CpuFeatures { sse2: false, avx2: false });
    assert_eq!(plan.len(), 5);
    assert_eq!(
        plan[4],
        c_binding_step(
            "-O3 -DSHISHUA_TARGET=SHISHUA_TARGET_SSE2 -msse2 -mno-ssse3 -mno-avx -mno-avx2"
        )
    );
}

#[test]
fn x86_32_plan_follows_detected_features() {
    let none = test_all_plan("i386", true, CpuFeatures { sse2: false, avx2: false });
    assert_eq!(none.len(), 4);
    let avx2_only = test_all_plan("x86", true, CpuFeatures { sse2: false, avx2: true });
    assert_eq!(avx2_only.len(), 5);
    assert_eq!(
        avx2_only[4],
        c_binding_step("-O3 -DSHISHUA_TARGET=SHISHUA_TARGET_AVX2 -mavx2 -mtune=haswell")
    );
    let both = test_all_plan("i586", true, CpuFeatures { sse2: true, avx2: true });
    assert_eq!(both.len(), 6);
}

#[test]
fn unknown_architecture_plan_runs_only_scalar_comparison() {
    let plan = test_all_plan("riscv64", true, CpuFeatures { sse2: true, avx2: true });
    assert_eq!(plan.len(), 4);
}

#[test]
fn step_display_quotes_environment_values() {
    let step = c_binding_step("-O3");
    assert_eq!(
        step.to_display_string(),
        "SHISHUA_C_DIR=\"shishua\" CFLAGS=\"-O3\" cargo test --features=__intern_c_bindings"
    );
    let plain = CargoStep::new(["test", "--no-default-features"]);
    assert_eq!(plain.to_display_string(), "cargo test --no-default-features");
    let escaped = CargoStep::new([]).with_env("K", "a\"b");
    assert_eq!(escaped.to_display_string(), "K=\"a\\\"b\" cargo");
}

#[test]
fn step_text_with_given_values() {
    let step = CargoStep::new(["build"]).with_env("A", "x");
    assert_eq!(step.text_with_values(&vec![String::from("<x>")]), "A=<x> cargo build");
}

#[test]
fn run_reads_commands() {
    assert_eq!(run(&vec![String::from("test-all")]), Ok(Command::TestAll));
    assert_eq!(run(&vec![]), Ok(Command::Help));
    assert_eq!(run(&vec![String::from("-h")]), Ok(Command::Help));
    assert_eq!(
        run(&vec![String::from("--help"), String::from("extra")]),
        Ok(Command::Help)
    );
}

#[test]
fn run_reports_unknown_command() {
    assert_eq!(
        run(&vec![String::from("bench")]),
        Err(String::from("unknown xtask command: bench"))
    );
}

#[test]
fn str_eq_compares_characters() {
    assert!(str_eq("x86_64", "x86_64"));
    assert!(!str_eq("x86_64", "x86"));
    assert!(!str_eq("arm64", "arm65"));
    assert!(str_eq("", ""));
}
