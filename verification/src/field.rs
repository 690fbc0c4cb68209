pub mod babybear;
