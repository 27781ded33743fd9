//! Which page of the application is shown: the navigation bar's decisions.

use vstd::prelude::*;

verus! {

/// The pages of the application.
#[derive(Clone, Copy, Debug, PartialEq, Eq, Structural)]
pub enum ViewType {
    GenerateReport,
    CreateTemplate,
    CreateKey,
    Help,
}

/// The navigation buttons clicked during one frame.
#[derive(Clone, Copy, Debug, PartialEq, Eq, Structural)]
pub struct NavClicks {
    pub generate_report: bool,
    pub create_template: bool,
    pub create_key: bool,
    pub help: bool,
}

/// The page shown after a frame: the buttons are handled in bar order
/// (Generate Report, Create Template, Create Key, Help), so the last clicked
/// one wins; with no click the page stays.
pub open spec fn spec_navigate(current: ViewType, clicks: NavClicks) -> ViewType {
    if clicks.help {
        ViewType::Help
    } else if clicks.create_key {
        ViewType::CreateKey
    } else if clicks.create_template {
        ViewType::CreateTemplate
    } else if clicks.generate_report {
        ViewType::GenerateReport
    } else {
        current
    }
}

/// The application's navigation state: the page currently shown.
pub struct WebApp {
    current_view: ViewType,
}

impl WebApp {
    pub closed spec fn spec_current_view(&self) -> ViewType {
        self.current_view
    }

    /// The page currently shown.
    pub fn current_view(&self) -> (res: ViewType)
        ensures
            res == self.spec_current_view(),
    {
        self.current_view
    }

    /// Applies one frame's clicks on the navigation bar.
    pub fn navigate(&mut self, clicks: NavClicks)
        ensures
            final(self).spec_current_view() == spec_navigate(old(self).spec_current_view(), clicks),
    {
        if clicks.generate_report {
            self.current_view = ViewType::GenerateReport;
        }
        if clicks.create_template {
            self.current_view = ViewType::CreateTemplate;
        }
        if clicks.create_key {
            self.current_view = ViewType::CreateKey;
        }
        if clicks.help {
            self.current_view = ViewType::Help;
        }
    }
}

impl Default for WebApp {
    /// The application opens on the help page.
    fn default() -> (res: Self)
        ensures
            res.spec_current_view() == ViewType::Help,
    {
        WebApp { current_view: ViewType::Help }
    }
}

/// Clicking a single button shows its page, whatever page was shown.
pub proof fn lemma_single_click_shows_page(current: ViewType, clicks: NavClicks, page: ViewType)
    requires
        (clicks.generate_report as int) + (clicks.create_template as int) + (clicks.create_key as int) + (clicks.help as int) == 1,
        clicks.generate_report ==> page == ViewType::GenerateReport,
        clicks.create_template ==> page == ViewType::CreateTemplate,
        clicks.create_key ==> page == ViewType::CreateKey,
        clicks.help ==> page == ViewType::Help,
    ensures
        spec_navigate(current, clicks) == page,
{
}

/// A frame without clicks leaves the page as it is.
pub proof fn lemma_no_click_keeps_page(current: ViewType)
    ensures
        spec_navigate(current, NavClicks { generate_report: false, create_template: false, create_key: false, help: false }) == current,
{
}

} // verus!
