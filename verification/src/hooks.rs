//! Shell hooks: the function a shell evaluates to gain the `wd` alias.
//!
//! An external program cannot change its parent shell's directory, so
//! the shell evaluates one of these snippets; the emitted function runs
//! the binary, and only on exit code 0 feeds the captured output to
//! `cd`. Every other outcome is merely echoed.

use vstd::prelude::*;

verus! {

/// The text of the bash hook for a binary at `bin`: completion setup
/// and the `wd` wrapper function.
pub open spec fn spec_bash_hook(bin: Seq<char>) -> Seq<char> {
    "\n_wd_completions() {\n    COMMANDS=\"add clean help hook list path rm show\"\n    # Maybe only warp points makes the most sense for completions...\n    WARPS=`wd list --completion`\n    COMPLETIONS=\"${WARPS}\"\n    COMPREPLY=($(compgen -W \"${COMPLETIONS}\" \"${COMP_WORDS[1]}\"))\n}\n\nwd() {\n    output=$("@
        + bin
        + " $@)\n    status_code=$?\n    if [[ $status_code -eq 0 ]]; then\n\tcd \"$output\"\n    elif [[ \"$output\" != \"\" ]]; then\n        echo \"$output\"\n    fi\n    unset output\n    unset status_code\n}\n"@
        + "complete -F _wd_completions wd\n"@
}

/// The text of the zsh hook for a binary at `bin`: the `wd` wrapper
/// function alone.
pub open spec fn spec_zsh_hook(bin: Seq<char>) -> Seq<char> {
    "wd() {\n    output=$("@ + bin
        + " $@)\n    status_code=$?\n    if [[ $status_code -eq 0 ]]; then\n\tcd \"$output\"\n    elif [[ \"$output\" != \"\" ]]; then\n        echo \"$output\"\n    fi\n    unset output\n    unset status_code\n}\n"@
}

/// The hook to evaluate in a bash shell to enable the `wd` alias
/// function, for the binary named by `bin_name`.
pub fn bash_hook(bin_name: String) -> (r: String)
    ensures
        r@ == spec_bash_hook(bin_name@),
{
    let mut s = String::new();
    s.append(
        "\n_wd_completions() {\n    COMMANDS=\"add clean help hook list path rm show\"\n    # Maybe only warp points makes the most sense for completions...\n    WARPS=`wd list --completion`\n    COMPLETIONS=\"${WARPS}\"\n    COMPREPLY=($(compgen -W \"${COMPLETIONS}\" \"${COMP_WORDS[1]}\"))\n}\n\nwd() {\n    output=$(",
    );
    s.append(bin_name.as_str());
    s.append(
        " $@)\n    status_code=$?\n    if [[ $status_code -eq 0 ]]; then\n\tcd \"$output\"\n    elif [[ \"$output\" != \"\" ]]; then\n        echo \"$output\"\n    fi\n    unset output\n    unset status_code\n}\n",
    );
    s.append("complete -F _wd_completions wd\n");
    proof {
        assert(s@ =~= spec_bash_hook(bin_name@));
    }
    s
}

/// The hook to evaluate in a zsh shell to enable the `wd` alias
/// function, for the binary named by `bin_name`.
pub fn zsh_hook(bin_name: String) -> (r: String)
    ensures
        r@ == spec_zsh_hook(bin_name@),
{
    let mut s = String::new();
    s.append("wd() {\n    output=$(");
    s.append(bin_name.as_str());
    s.append(
        " $@)\n    status_code=$?\n    if [[ $status_code -eq 0 ]]; then\n\tcd \"$output\"\n    elif [[ \"$output\" != \"\" ]]; then\n        echo \"$output\"\n    fi\n    unset output\n    unset status_code\n}\n",
    );
    proof {
        assert(s@ =~= spec_zsh_hook(bin_name@));
    }
    s
}

} // verus!
