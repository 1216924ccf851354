use vnstudio::kernel_names::{sidecar_kernel_name, sidecar_kernel_names};

fn names(list: &[&str]) -> Vec<String> {
    list.iter().map(|name| name.to_string()).collect()
}

#[test]
fn entries_are_read_in_order_up_to_their_parameters() {
    let ptx = "//\n// module\n.version 8.0\n.target sm_80\n\n\t// .globl\tevaluate_TID_abc\n\
               .visible .entry evaluate_TID_abc(\n\t.param .u64 evaluate_param_0\n)\n\
               .visible .entry clear_halos(.param .u64 p)\r\n  \
               .visible .entry rebuild_von_neumann_halos_TID_9 (\n.visible .entry tail";
    assert_eq!(
        sidecar_kernel_names(ptx),
        Ok(names(&["evaluate_TID_abc", "clear_halos", "rebuild_von_neumann_halos_TID_9 ", "tail"]))
    );
}

#[test]
fn a_module_without_entries_is_an_error() {
    assert_eq!(sidecar_kernel_names(""), Err("vnstudio.ptx has no entry".to_string()));
    assert_eq!(
        sidecar_kernel_names(".version 8.0\n.entry hidden(\n.visible .entr y(\n"),
        Err("vnstudio.ptx has no entry".to_string())
    );
    assert_eq!(sidecar_kernel_names(".visible .entry \r\n"), Err("vnstudio.ptx has no entry".to_string()));
    assert_eq!(sidecar_kernel_names(".visible .entry (x)\r\n"), Ok(names(&[""])));
}

#[test]
fn kernels_are_found_by_name_or_by_their_thread_suffix() {
    let list = names(&["evaluatex", "evaluate_TID_1", "evaluate", "clear_halos"]);
    assert_eq!(sidecar_kernel_name(&list, "evaluate"), Some("evaluate_TID_1".to_string()));
    assert_eq!(sidecar_kernel_name(&list, "clear_halos"), Some("clear_halos".to_string()));
    assert_eq!(sidecar_kernel_name(&list, "rebuild_von_neumann_halos"), None);
    assert_eq!(sidecar_kernel_name(&[], "evaluate"), None);
}
