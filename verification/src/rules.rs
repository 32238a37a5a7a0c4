pub mod accessor_pairs;
pub mod array_bracket_newline;
pub mod array_callback_return;
pub mod class_methods_use_this;
pub mod consistent_return;
pub mod default_case;
pub mod dot_location;
pub mod for_direction;
pub mod getter_return;
pub mod guard_for_in;
pub mod line_comment_position;
pub mod max_nested_callbacks;
pub mod max_statements;
pub mod no_cond_assign;
