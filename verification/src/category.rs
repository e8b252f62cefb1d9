//! Task categories: a closed enumeration, ordered by declaration for
//! sorting.

use vstd::prelude::*;
use crate::error::{TrackerError, ValidationError};
use crate::text::str_eq;

verus! {

/// The kind of work a task records; `Task` is the default. Sorting by
/// category follows declaration order.
#[derive(Debug, Clone, Copy, PartialEq, Eq, Structural)]
pub enum Category {
    Task,
    Feature,
    Bug,
    Maintenance,
    Documentation,
    Other,
    Message,
}

/// The declaration-order rank of a category, for sorting.
pub open spec fn category_rank(c: Category) -> int {
    match c {
        Category::Task => 0,
        Category::Feature => 1,
        Category::Bug => 2,
        Category::Maintenance => 3,
        Category::Documentation => 4,
        Category::Other => 5,
        Category::Message => 6,
    }
}

/// The category a lower-case name denotes, if any.
pub open spec fn category_of_text(s: Seq<char>) -> Option<Category> {
    if s == "task"@ {
        Some(Category::Task)
    } else if s == "feature"@ {
        Some(Category::Feature)
    } else if s == "bug"@ {
        Some(Category::Bug)
    } else if s == "maintenance"@ {
        Some(Category::Maintenance)
    } else if s == "documentation"@ {
        Some(Category::Documentation)
    } else if s == "other"@ {
        Some(Category::Other)
    } else if s == "message"@ {
        Some(Category::Message)
    } else {
        None
    }
}

/// The upper-case label of a category, as the reports show it.
pub open spec fn category_label(c: Category) -> Seq<char> {
    match c {
        Category::Task => "TASK"@,
        Category::Feature => "FEATURE"@,
        Category::Bug => "BUG"@,
        Category::Maintenance => "MAINTENANCE"@,
        Category::Documentation => "DOCUMENTATION"@,
        Category::Other => "OTHER"@,
        Category::Message => "MESSAGE"@,
    }
}

impl Category {
    /// The declaration-order rank, for sorting.
    pub fn rank(&self) -> (r: u64)
        ensures
            r == category_rank(*self),
    {
        match self {
            Category::Task => 0,
            Category::Feature => 1,
            Category::Bug => 2,
            Category::Maintenance => 3,
            Category::Documentation => 4,
            Category::Other => 5,
            Category::Message => 6,
        }
    }

    /// Parses a lower-case category name.
    pub fn from_str(s: &str) -> (r: Result<Category, TrackerError>)
        ensures
            r is Ok <==> category_of_text(s@) is Some,
            r matches Ok(c) ==> category_of_text(s@) == Some(c),
            r matches Err(e) ==> e == TrackerError::Validation(ValidationError::BadCategoryText),
    {
        if str_eq(s, "task") {
            Ok(Category::Task)
        } else if str_eq(s, "feature") {
            Ok(Category::Feature)
        } else if str_eq(s, "bug") {
            Ok(Category::Bug)
        } else if str_eq(s, "maintenance") {
            Ok(Category::Maintenance)
        } else if str_eq(s, "documentation") {
            Ok(Category::Documentation)
        } else if str_eq(s, "other") {
            Ok(Category::Other)
        } else if str_eq(s, "message") {
            Ok(Category::Message)
        } else {
            Err(TrackerError::Validation(ValidationError::BadCategoryText))
        }
    }

    /// The upper-case label, as the reports show it.
    pub fn label(&self) -> (r: &'static str)
        ensures
            r@ == category_label(*self),
    {
        match self {
            Category::Task => "TASK",
            Category::Feature => "FEATURE",
            Category::Bug => "BUG",
            Category::Maintenance => "MAINTENANCE",
            Category::Documentation => "DOCUMENTATION",
            Category::Other => "OTHER",
            Category::Message => "MESSAGE",
        }
    }
}

impl Default for Category {
    /// The default category is `Task`.
    fn default() -> (r: Category)
        ensures
            r == Category::Task,
    {
        Category::Task
    }
}

} // verus!
