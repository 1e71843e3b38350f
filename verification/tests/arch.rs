use native_math::get_arch_name;
use native_math::print_hello;
use native_math::Arch;

#[test]
fn test_arch_label_is_one_of_five() {
    let labels = ["x86", "x86_64", "arm", "aarch64", "unknown"];
    let arches = [Arch::X86, Arch::X86_64, Arch::Arm, Arch::Aarch64, Arch::Unknown];
    for arch in arches {
        let name = get_arch_name(arch);
        assert!(labels.contains(&name));
    }
}

#[test]
fn test_arch_label_is_consistent() {
    let arches = [Arch::X86, Arch::X86_64, Arch::Arm, Arch::Aarch64, Arch::Unknown];
    for arch in arches {
        assert_eq!(get_arch_name(arch), get_arch_name(arch));
    }
}

#[test]
fn test_arch_labels_exact() {
    assert_eq!(get_arch_name(Arch::X86), "x86");
    assert_eq!(get_arch_name(Arch::X86_64), "x86_64");
    assert_eq!(get_arch_name(Arch::Arm), "arm");
    assert_eq!(get_arch_name(Arch::Aarch64), "aarch64");
    assert_eq!(get_arch_name(Arch::Unknown), "unknown");
}

#[test]
fn test_greeting_embeds_label() {
    assert_eq!(
        print_hello(Arch::X86_64),
        "Hello world from rust! You're running a x86_64"
    );
    let arches = [Arch::X86, Arch::X86_64, Arch::Arm, Arch::Aarch64, Arch::Unknown];
    for arch in arches {
        let greeting = print_hello(arch);
        assert!(greeting.starts_with("Hello world from rust! You're running a "));
        assert!(greeting.ends_with(get_arch_name(arch)));
    }
}
