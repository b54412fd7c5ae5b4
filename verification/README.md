# mobile-inspector-cli

Inspects the view hierarchy of Android apps (through `adb`) and iOS apps
(through an Appium server) from the terminal: regex filters over neutral
attribute names, XPath selection, and XML, table or JSON output.

- `src/` is the library, verified with Verus: the element tree and its
  parsing (`model`, `attrmap`), the attribute and XPath filters (`filter`),
  the XML and table renderings (`output`), the decisions about adb output
  and Appium replies (`platform`), the configuration keys (`config`), and
  the interactive session's command parsing and dump cache (`repl`).
- `app/` is the command around it: argument parsing, running adb, HTTP,
  the configuration file, the JSON rendering and the interactive loop.
- `tests/` exercise the library.
